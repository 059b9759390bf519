//! JSON text and queries on it, through `serde_json` and `jql`.

use vstd::prelude::*;
use crate::document::{fields_view, Doc, DocView};
use crate::error::{Fault, FrError};
use crate::resolve::{collect, lemma_collect_failed};
use crate::text::chars_of;

verus! {

/// `serde_json::Value`, declared so that verified code can carry one; of
/// what is inside it only [`json_doc`] speaks.
#[verifier::external_type_specification]
#[verifier::external_body]
pub struct ExJsonValue(serde_json::Value);

/// What a `serde_json::Value` holds, as a document: its leaves, its items in
/// order, its fields in the order in which the value yields them, and each
/// number as the text that `serde_json` prints for it.
pub uninterp spec fn json_doc(value: serde_json::Value) -> DocView;

/// What `serde_json::from_str` makes of a text: the document that the parsed
/// value holds, or nothing where the parser refuses the text.
pub uninterp spec fn json_parsed(text: Seq<char>) -> Option<DocView>;

/// What `jql::walker` selects from a document by an expression: the selected
/// document, or nothing where it reports an error.
pub uninterp spec fn json_selected(doc: DocView, expression: Seq<char>) -> Option<DocView>;

/// The expression holds no opening square bracket, so it selects by names
/// only: `jql` panics on some index selectors, and none is handed to it.
pub open spec fn supported_expression(expression: Seq<char>) -> bool {
    forall|i: int| 0 <= i < expression.len() ==> expression[i] != '['
}

/// `serde_json::from_str` on a whole text; the parser's error is dropped.
/// The contract claims that the outcome depends on the text alone.
#[verifier::external_body]
pub(crate) fn parse_json(text: &str) -> (r: Option<serde_json::Value>)
    ensures
        r matches Some(v) ==> json_parsed(text@) == Some(json_doc(v)),
        r is None ==> json_parsed(text@) is None,
{
    serde_json::from_str::<serde_json::Value>(text).ok()
}

/// Copies a `serde_json::Value` into a [`Doc`], variant by variant; a number
/// becomes the text that `serde_json::Number::to_string` gives. The contract
/// claims that the copy is what [`json_doc`] names.
#[verifier::external_body]
pub(crate) fn doc_from_json(value: &serde_json::Value) -> (d: Doc)
    ensures
        d@ == json_doc(*value),
{
    match value {
        serde_json::Value::Null => Doc::Null,
        serde_json::Value::Bool(b) => Doc::Bool(*b),
        serde_json::Value::Number(n) => Doc::Number(n.to_string()),
        serde_json::Value::String(s) => Doc::Text(s.clone()),
        serde_json::Value::Array(a) => Doc::Array(a.iter().map(doc_from_json).collect()),
        serde_json::Value::Object(m) => Doc::Object(
            m.iter().map(|(k, v)| (k.clone(), doc_from_json(v))).collect(),
        ),
    }
}

/// `jql::walker` with the expression as its selectors; the error's message
/// is dropped. The contract claims that the outcome depends on what the
/// value holds and on the expression alone. Expressions with an index
/// selector are kept out, because `jql` panics on some of them.
#[verifier::external_body]
pub(crate) fn json_select(value: &serde_json::Value, expression: &str) -> (r: Option<
    serde_json::Value,
>)
    requires
        supported_expression(expression@),
    ensures
        r matches Some(v) ==> json_selected(json_doc(*value), expression@) == Some(json_doc(v)),
        r is None ==> json_selected(json_doc(*value), expression@) is None,
{
    jql::walker(value, Some(expression)).ok()
}

/// Whether an expression can be handed to the query evaluator.
pub fn is_supported(expression: &str) -> (r: bool)
    ensures
        r == supported_expression(expression@),
{
    let chars = chars_of(expression);
    let mut i: usize = 0;
    while i < chars.len()
        invariant
            i <= chars.len(),
            chars@ == expression@,
            forall|j: int| 0 <= j < i ==> chars@[j] != '[',
        decreases chars.len() - i,
    {
        if chars[i] == '[' {
            return false;
        }
        i += 1;
    }
    true
}

/// Reads a JSON text as a document.
pub fn parse_document(text: &str) -> (r: Result<Doc, FrError>)
    ensures
        r matches Ok(doc) ==> json_parsed(text@) == Some(doc@),
        r matches Err(e) ==> json_parsed(text@) is None && e@ == Fault::Parse,
{
    match parse_json(text) {
        Some(value) => Ok(doc_from_json(&value)),
        None => Err(FrError::Parse),
    }
}

/// The views of a run of named texts.
pub open spec fn texts_view(texts: Seq<(String, String)>) -> Seq<(Seq<char>, Seq<char>)> {
    Seq::new(texts.len(), |i: int| (texts[i].0@, texts[i].1@))
}

/// What one named text holds: its document under its name, or the failure
/// to read it.
pub open spec fn parsed_file(file: (Seq<char>, Seq<char>)) -> Result<(Seq<char>, DocView), Fault> {
    match json_parsed(file.1) {
        Some(doc) => Ok((file.0, doc)),
        None => Err(Fault::Parse),
    }
}

/// What a run of named texts holds, or the failure of the first text that
/// is not JSON.
pub open spec fn parsed_files(files: Seq<(Seq<char>, Seq<char>)>) -> Result<
    Seq<(Seq<char>, DocView)>,
    Fault,
> {
    collect(Seq::new(files.len(), |i: int| parsed_file(files[i])))
}

/// Reads the JSON texts of files, each given with its path, as documents.
pub fn parse_files(files: &Vec<(String, String)>) -> (r: Result<Vec<(String, Doc)>, FrError>)
    ensures
        r matches Ok(docs) ==> parsed_files(texts_view(files@)) == Ok::<
            Seq<(Seq<char>, DocView)>,
            Fault,
        >(fields_view(docs@)),
        r matches Err(e) ==> parsed_files(texts_view(files@)) == Err::<
            Seq<(Seq<char>, DocView)>,
            Fault,
        >(e@),
{
    let ghost texts = texts_view(files@);
    let ghost outcomes = Seq::new(texts.len(), |i: int| parsed_file(texts[i]));
    let mut out: Vec<(String, Doc)> = Vec::new();
    let mut i: usize = 0;
    proof {
        assert(outcomes.take(0) =~= Seq::empty());
        assert(fields_view(out@) =~= Seq::empty());
    }
    while i < files.len()
        invariant
            i <= files.len(),
            texts == texts_view(files@),
            outcomes == Seq::new(texts.len(), |i: int| parsed_file(texts[i])),
            collect(outcomes.take(i as int)) == Ok::<Seq<(Seq<char>, DocView)>, Fault>(
                fields_view(out@),
            ),
        decreases files.len() - i,
    {
        proof {
            assert(outcomes.take(i + 1).drop_last() =~= outcomes.take(i as int));
        }
        match parse_document(files[i].1.as_str()) {
            Ok(doc) => {
                let ghost before = out@;
                out.push((files[i].0.clone(), doc));
                proof {
                    assert(fields_view(out@) =~= fields_view(before).push(
                        (files@[i as int].0@, doc@),
                    ));
                }
            },
            Err(e) => {
                proof {
                    lemma_collect_failed(outcomes, i + 1);
                }
                return Err(e);
            },
        }
        i += 1;
    }
    proof {
        assert(outcomes.take(i as int) =~= outcomes);
    }
    Ok(out)
}

} // verus!
