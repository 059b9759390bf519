//! The generic structured document that templates and responses are made of.

use vstd::prelude::*;
use crate::text::same;

verus! {

/// A structured document: a scalar, an array, or an object whose fields keep
/// the order in which they were written.
#[derive(Debug, PartialEq, Eq)]
pub enum Doc {
    Null,
    Bool(bool),
    /// A number, kept as the text that stands for it.
    Number(String),
    Text(String),
    Array(Vec<Doc>),
    Object(Vec<(String, Doc)>),
}

/// The mathematical value of a [`Doc`].
pub enum DocView {
    Null,
    Bool(bool),
    Number(Seq<char>),
    Text(Seq<char>),
    Array(Seq<DocView>),
    Object(Seq<(Seq<char>, DocView)>),
}

/// The value of a document: that of its leaves, items and fields.
pub open spec fn doc_view(d: Doc) -> DocView
    decreases d,
{
    match d {
        Doc::Null => DocView::Null,
        Doc::Bool(b) => DocView::Bool(b),
        Doc::Number(n) => DocView::Number(n@),
        Doc::Text(s) => DocView::Text(s@),
        Doc::Array(items) => DocView::Array(
            Seq::new(
                items@.len(),
                |i: int|
                    if 0 <= i < items@.len() {
                        doc_view(items@[i])
                    } else {
                        DocView::Null
                    },
            ),
        ),
        Doc::Object(fields) => DocView::Object(
            Seq::new(
                fields@.len(),
                |i: int|
                    if 0 <= i < fields@.len() {
                        (fields@[i].0@, doc_view(fields@[i].1))
                    } else {
                        (Seq::empty(), DocView::Null)
                    },
            ),
        ),
    }
}

impl View for Doc {
    type V = DocView;

    open spec fn view(&self) -> DocView {
        doc_view(*self)
    }
}

/// The views of a run of documents.
pub open spec fn items_view(items: Seq<Doc>) -> Seq<DocView> {
    Seq::new(items.len(), |i: int| items[i]@)
}

/// The views of a run of fields.
pub open spec fn fields_view(fields: Seq<(String, Doc)>) -> Seq<(Seq<char>, DocView)> {
    Seq::new(fields.len(), |i: int| (fields[i].0@, fields[i].1@))
}

/// An array's view is the views of its items.
pub broadcast proof fn lemma_array_view(items: Vec<Doc>)
    ensures
        #[trigger] Doc::Array(items)@ == DocView::Array(items_view(items@)),
{
    assert(Doc::Array(items)@->Array_0 =~= items_view(items@));
}

/// An object's view is the views of its fields.
pub broadcast proof fn lemma_object_view(fields: Vec<(String, Doc)>)
    ensures
        #[trigger] Doc::Object(fields)@ == DocView::Object(fields_view(fields@)),
{
    assert(Doc::Object(fields)@->Object_0 =~= fields_view(fields@));
}

/// The value of the first field named `key`, if there is one.
pub open spec fn field_of(fields: Seq<(Seq<char>, DocView)>, key: Seq<char>) -> Option<DocView>
    decreases fields.len(),
{
    if fields.len() == 0 {
        None
    } else if fields[0].0 == key {
        Some(fields[0].1)
    } else {
        field_of(fields.drop_first(), key)
    }
}

/// Looks a field up by its name; the first of that name counts.
pub fn find_field<'a>(fields: &'a Vec<(String, Doc)>, key: &str) -> (r: Option<&'a Doc>)
    ensures
        r matches Some(d) ==> field_of(fields_view(fields@), key@) == Some(d@),
        r is None ==> field_of(fields_view(fields@), key@) is None,
{
    let ghost all = fields_view(fields@);
    let mut i: usize = 0;
    proof {
        assert(all.skip(0) =~= all);
    }
    while i < fields.len()
        invariant
            i <= fields.len(),
            all == fields_view(fields@),
            field_of(all, key@) == field_of(all.skip(i as int), key@),
        decreases fields.len() - i,
    {
        proof {
            assert(all.skip(i as int).drop_first() =~= all.skip(i + 1));
        }
        if same(fields[i].0.as_str(), key) {
            return Some(&fields[i].1);
        }
        i += 1;
    }
    None
}

impl Doc {
    /// A copy of the document.
    #[verifier::loop_isolation(false)]
    pub fn duplicate(&self) -> (r: Doc)
        ensures
            r@ == self@,
        decreases self,
    {
        match self {
            Doc::Null => Doc::Null,
            Doc::Bool(b) => Doc::Bool(*b),
            Doc::Number(n) => Doc::Number(n.clone()),
            Doc::Text(s) => Doc::Text(s.clone()),
            Doc::Array(items) => {
                let mut out: Vec<Doc> = Vec::new();
                let mut i: usize = 0;
                while i < items.len()
                    invariant
                        i <= items.len(),
                        out@.len() == i,
                        forall|j: int| 0 <= j < i ==> (#[trigger] out@[j])@ == items@[j]@,
                    decreases items.len() - i,
                {
                    out.push(items[i].duplicate());
                    i += 1;
                }
                proof {
                    lemma_array_view(out);
                    lemma_array_view(*items);
                    assert(items_view(out@) =~= items_view(items@));
                }
                Doc::Array(out)
            },
            Doc::Object(fields) => {
                let mut out: Vec<(String, Doc)> = Vec::new();
                let mut i: usize = 0;
                while i < fields.len()
                    invariant
                        i <= fields.len(),
                        out@.len() == i,
                        forall|j: int|
                            0 <= j < i ==> (#[trigger] out@[j]).0@ == fields@[j].0@ && out@[j].1@
                                == fields@[j].1@,
                    decreases fields.len() - i,
                {
                    out.push((fields[i].0.clone(), fields[i].1.duplicate()));
                    i += 1;
                }
                proof {
                    lemma_object_view(out);
                    lemma_object_view(*fields);
                    assert(fields_view(out@) =~= fields_view(fields@));
                }
                Doc::Object(out)
            },
        }
    }
}

} // verus!
