//! The document tree and its mathematical model.

use vstd::prelude::*;

verus! {

/// How a line primitive renders when its group is flat.
#[derive(Clone, Copy, Debug, PartialEq, Eq, Structural)]
pub enum LineKind {
    /// A space when flat, a line break when broken.
    Space,
    /// Nothing when flat, a line break when broken.
    Soft,
    /// Always a line break; every enclosing group breaks.
    Hard,
    /// Always a line break, with no indentation after it.
    Literal,
}

/// The two ways a group can be laid out.
#[derive(Clone, Copy, Debug, PartialEq, Eq, Structural)]
pub enum Mode {
    Flat,
    Break,
}

/// A document: the tree of layout primitives that the printer consumes.
#[derive(Debug, PartialEq, Eq)]
pub enum Doc {
    Text(String),
    Line(LineKind),
    Concat(Vec<Doc>),
    Group { content: Box<Doc>, should_break: bool, id: Option<u32> },
    Indent(Box<Doc>),
    IfBreak { break_contents: Box<Doc>, flat_contents: Box<Doc>, group_id: Option<u32> },
    Array(Vec<Doc>),
}

/// The model of a document: texts are character sequences, children are
/// sequences of models.
pub enum DocView {
    Text(Seq<char>),
    Line(LineKind),
    Concat(Seq<DocView>),
    Group { content: Box<DocView>, should_break: bool, id: Option<u32> },
    Indent(Box<DocView>),
    IfBreak { break_contents: Box<DocView>, flat_contents: Box<DocView>, group_id: Option<u32> },
    Array(Seq<DocView>),
}

/// The model of one document.
pub open spec fn model(doc: Doc) -> DocView
    decreases doc,
{
    match doc {
        Doc::Text(s) => DocView::Text(s@),
        Doc::Line(kind) => DocView::Line(kind),
        Doc::Concat(docs) => DocView::Concat(models(docs@)),
        Doc::Group { content, should_break, id } => DocView::Group {
            content: Box::new(model(*content)),
            should_break,
            id,
        },
        Doc::Indent(content) => DocView::Indent(Box::new(model(*content))),
        Doc::IfBreak { break_contents, flat_contents, group_id } => DocView::IfBreak {
            break_contents: Box::new(model(*break_contents)),
            flat_contents: Box::new(model(*flat_contents)),
            group_id,
        },
        Doc::Array(docs) => DocView::Array(models(docs@)),
    }
}

/// The models of a sequence of documents, element by element.
pub open spec fn models(docs: Seq<Doc>) -> Seq<DocView>
    decreases docs,
{
    Seq::new(
        docs.len(),
        |i: int|
            if 0 <= i < docs.len() {
                model(docs[i])
            } else {
                DocView::Line(LineKind::Soft)
            },
    )
}

impl View for Doc {
    type V = DocView;

    open spec fn view(&self) -> DocView {
        model(*self)
    }
}

/// Appending a document to a sequence appends its model to the models.
pub proof fn lemma_models_push(docs: Seq<Doc>, doc: Doc)
    ensures
        models(docs.push(doc)) == models(docs).push(doc@),
{
    assert(models(docs.push(doc)) =~= models(docs).push(doc@));
}

/// The models of a concatenation are the concatenation of the models.
pub proof fn lemma_models_add(a: Seq<Doc>, b: Seq<Doc>)
    ensures
        models(a + b) == models(a) + models(b),
{
    assert(models(a + b) =~= models(a) + models(b));
}

impl Doc {
    /// A run of literal characters.
    pub fn text(s: &str) -> (doc: Doc)
        ensures
            doc@ == DocView::Text(s@),
    {
        Doc::Text(s.to_owned())
    }

    /// A single space that never turns into a line break.
    pub fn space() -> (doc: Doc)
        ensures
            doc@ == DocView::Text(" "@),
    {
        Doc::Text(" ".to_owned())
    }

    /// A space when its group is flat, a line break when it is broken.
    pub fn line() -> (doc: Doc)
        ensures
            doc@ == DocView::Line(LineKind::Space),
    {
        Doc::Line(LineKind::Space)
    }

    /// Nothing when its group is flat, a line break when it is broken.
    pub fn softline() -> (doc: Doc)
        ensures
            doc@ == DocView::Line(LineKind::Soft),
    {
        Doc::Line(LineKind::Soft)
    }

    /// A line break that forces every enclosing group to break.
    pub fn hardline() -> (doc: Doc)
        ensures
            doc@ == DocView::Line(LineKind::Hard),
    {
        Doc::Line(LineKind::Hard)
    }

    /// A line break after which no indentation is written.
    pub fn literal_line() -> (doc: Doc)
        ensures
            doc@ == DocView::Line(LineKind::Literal),
    {
        Doc::Line(LineKind::Literal)
    }

    /// The juxtaposition of `docs`, in order.
    pub fn concat(docs: Vec<Doc>) -> (doc: Doc)
        ensures
            doc@ == DocView::Concat(models(docs@)),
    {
        Doc::Concat(docs)
    }

    /// The juxtaposition of `docs`, as builders assemble it.
    pub fn array(docs: Vec<Doc>) -> (doc: Doc)
        ensures
            doc@ == DocView::Array(models(docs@)),
    {
        Doc::Array(docs)
    }

    /// A group that the printer lays out flat if it fits.
    pub fn group(content: Doc) -> (doc: Doc)
        ensures
            doc@ == (DocView::Group { content: Box::new(content@), should_break: false, id: None }),
    {
        Doc::Group { content: Box::new(content), should_break: false, id: None }
    }

    /// A group with an explicit break flag and an optional identifier.
    pub fn group_with_opts(content: Doc, should_break: bool, id: Option<u32>) -> (doc: Doc)
        ensures
            doc@ == (DocView::Group { content: Box::new(content@), should_break, id }),
    {
        Doc::Group { content: Box::new(content), should_break, id }
    }

    /// `content`, one indentation level deeper.
    pub fn indent(content: Doc) -> (doc: Doc)
        ensures
            doc@ == DocView::Indent(Box::new(content@)),
    {
        Doc::Indent(Box::new(content))
    }

    /// `break_contents` where the group named by `group_id` (the innermost
    /// enclosing one if `None`) is broken, `flat_contents` where it is flat.
    pub fn if_break(break_contents: Doc, flat_contents: Doc, group_id: Option<u32>) -> (doc: Doc)
        ensures
            doc@ == (DocView::IfBreak {
                break_contents: Box::new(break_contents@),
                flat_contents: Box::new(flat_contents@),
                group_id,
            }),
    {
        Doc::IfBreak {
            break_contents: Box::new(break_contents),
            flat_contents: Box::new(flat_contents),
            group_id,
        }
    }

    /// A copy of the whole tree.
    pub fn deep_clone(&self) -> (copy: Doc)
        ensures
            copy@ == self@,
        decreases self,
    {
        match self {
            Doc::Text(s) => Doc::Text(s.clone()),
            Doc::Line(kind) => Doc::Line(*kind),
            Doc::Concat(docs) => Doc::Concat(clone_all(docs)),
            Doc::Group { content, should_break, id } => Doc::Group {
                content: Box::new(content.deep_clone()),
                should_break: *should_break,
                id: *id,
            },
            Doc::Indent(content) => Doc::Indent(Box::new(content.deep_clone())),
            Doc::IfBreak { break_contents, flat_contents, group_id } => Doc::IfBreak {
                break_contents: Box::new(break_contents.deep_clone()),
                flat_contents: Box::new(flat_contents.deep_clone()),
                group_id: *group_id,
            },
            Doc::Array(docs) => Doc::Array(clone_all(docs)),
        }
    }
}

/// Appends `doc` to `docs`.
pub fn push_doc(docs: &mut Vec<Doc>, doc: Doc)
    ensures
        final(docs)@ == old(docs)@.push(doc),
        models(final(docs)@) == models(old(docs)@).push(doc@),
{
    proof {
        lemma_models_push(docs@, doc);
    }
    docs.push(doc);
}

/// Moves all of `more` to the end of `docs`.
pub fn append_docs(docs: &mut Vec<Doc>, more: Vec<Doc>)
    ensures
        final(docs)@ == old(docs)@ + more@,
        models(final(docs)@) == models(old(docs)@) + models(more@),
{
    proof {
        lemma_models_add(docs@, more@);
    }
    let mut more = more;
    docs.append(&mut more);
}

/// Copies of all of `docs`, in order.
pub fn clone_all(docs: &Vec<Doc>) -> (copies: Vec<Doc>)
    ensures
        copies@.len() == docs@.len(),
        models(copies@) == models(docs@),
    decreases docs,
{
    let mut copies: Vec<Doc> = Vec::new();
    let mut i: usize = 0;
    while i < docs.len()
        invariant
            i <= docs.len(),
            copies.len() == i,
            forall|j: int| 0 <= j < i ==> copies@[j]@ == docs@[j]@,
        decreases docs.len() - i,
    {
        let copy = docs[i].deep_clone();
        copies.push(copy);
        i += 1;
    }
    assert(models(copies@) =~= models(docs@));
    copies
}

impl Clone for Doc {
    fn clone(&self) -> (copy: Doc)
        ensures
            copy@ == self@,
    {
        self.deep_clone()
    }
}

} // verus!
