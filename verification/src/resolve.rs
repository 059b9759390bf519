//! Resolution of a whole document: every text leaf has its placeholders
//! replaced, everything else is kept.

use vstd::prelude::*;
use crate::cut::Register;
use crate::document::{
    fields_view, items_view, lemma_array_view, lemma_object_view, Doc, DocView,
};
use crate::error::{Fault, FrError};
use crate::placeholder::{law_plain_text_unchanged, plain_text, resolve_text, resolved_text};

verus! {

/// All the values of a run of results, or the first failure among them.
pub open spec fn collect<T, E>(results: Seq<Result<T, E>>) -> Result<Seq<T>, E>
    decreases results.len(),
{
    if results.len() == 0 {
        Ok(Seq::empty())
    } else {
        match collect(results.drop_last()) {
            Err(e) => Err(e),
            Ok(items) => match results.last() {
                Ok(x) => Ok(items.push(x)),
                Err(e) => Err(e),
            },
        }
    }
}

/// The document with the placeholders of all its text leaves resolved, or the
/// name of the first placeholder, in the order of the document, that has no
/// value. Names of fields, numbers, booleans and nulls are kept as they are.
pub open spec fn resolved(doc: DocView, vars: Map<Seq<char>, Seq<char>>) -> Result<
    DocView,
    Seq<char>,
>
    decreases doc,
{
    match doc {
        DocView::Text(s) => match resolved_text(s, vars) {
            Ok(t) => Ok(DocView::Text(t)),
            Err(name) => Err(name),
        },
        DocView::Array(items) => match collect(resolved_items(items, vars)) {
            Ok(out) => Ok(DocView::Array(out)),
            Err(name) => Err(name),
        },
        DocView::Object(fields) => match collect(resolved_values(fields, vars)) {
            Ok(values) => Ok(DocView::Object(with_values(fields, values))),
            Err(name) => Err(name),
        },
        other => Ok(other),
    }
}

/// What each item of an array resolves to.
pub open spec fn resolved_items(items: Seq<DocView>, vars: Map<Seq<char>, Seq<char>>) -> Seq<
    Result<DocView, Seq<char>>,
>
    decreases items,
{
    Seq::new(
        items.len(),
        |i: int|
            if 0 <= i < items.len() {
                resolved(items[i], vars)
            } else {
                Ok(DocView::Null)
            },
    )
}

/// What the value of each field of an object resolves to.
pub open spec fn resolved_values(
    fields: Seq<(Seq<char>, DocView)>,
    vars: Map<Seq<char>, Seq<char>>,
) -> Seq<Result<DocView, Seq<char>>>
    decreases fields,
{
    Seq::new(
        fields.len(),
        |i: int|
            if 0 <= i < fields.len() {
                resolved(fields[i].1, vars)
            } else {
                Ok(DocView::Null)
            },
    )
}

/// The fields with their values replaced, one for one.
pub open spec fn with_values(fields: Seq<(Seq<char>, DocView)>, values: Seq<DocView>) -> Seq<
    (Seq<char>, DocView),
> {
    Seq::new(fields.len(), |i: int| (fields[i].0, values[i]))
}

/// No text leaf of the document holds a placeholder, escaped or not.
pub open spec fn plain(doc: DocView) -> bool
    decreases doc,
{
    match doc {
        DocView::Text(s) => plain_text(s),
        DocView::Array(items) => forall|i: int|
            0 <= i < items.len() ==> plain(#[trigger] items[i]),
        DocView::Object(fields) => forall|i: int|
            0 <= i < fields.len() ==> plain((#[trigger] fields[i]).1),
        _ => true,
    }
}

/// A failure among the first results is the failure of them all.
pub proof fn lemma_collect_failed<T, E>(results: Seq<Result<T, E>>, k: int)
    requires
        0 <= k <= results.len(),
        collect(results.take(k)) is Err,
    ensures
        collect(results) is Err,
        collect(results)->Err_0 == collect(results.take(k))->Err_0,
    decreases results.len() - k,
{
    if k < results.len() {
        assert(results.take(k + 1).drop_last() =~= results.take(k));
        lemma_collect_failed(results, k + 1);
    } else {
        assert(results.take(k) =~= results);
    }
}

/// What is collected from a run of results holds each result's value at its
/// place.
pub proof fn lemma_collect_ok<T, E>(results: Seq<Result<T, E>>)
    requires
        collect(results) is Ok,
    ensures
        collect(results)->Ok_0.len() == results.len(),
        forall|i: int|
            0 <= i < results.len() ==> #[trigger] results[i] == Ok::<T, E>(
                collect(results)->Ok_0[i],
            ),
    decreases results.len(),
{
    if results.len() > 0 {
        let shorter = results.drop_last();
        lemma_collect_ok(shorter);
        assert forall|i: int| 0 <= i < results.len() implies #[trigger] results[i] == Ok::<T, E>(
            collect(results)->Ok_0[i],
        ) by {
            if i < shorter.len() {
                assert(shorter[i] == results[i]);
            }
        }
    }
}

/// Results that all succeed are collected to their values.
pub proof fn lemma_collect_all<T, E>(results: Seq<Result<T, E>>, items: Seq<T>)
    requires
        results.len() == items.len(),
        forall|i: int| 0 <= i < results.len() ==> #[trigger] results[i] == Ok::<T, E>(items[i]),
    ensures
        collect(results) == Ok::<Seq<T>, E>(items),
    decreases results.len(),
{
    if results.len() == 0 {
        assert(items =~= Seq::empty());
    } else {
        let shorter = results.drop_last();
        assert forall|i: int| 0 <= i < shorter.len() implies #[trigger] shorter[i] == Ok::<T, E>(
            items.drop_last()[i],
        ) by {
            assert(shorter[i] == results[i]);
        }
        lemma_collect_all(shorter, items.drop_last());
        assert(results.last() == results[results.len() - 1]);
        assert(items.drop_last().push(items.last()) =~= items);
    }
}

/// Builds the concrete document of a template: every placeholder in a text
/// leaf is replaced by its variable's value. Fails on the first placeholder
/// whose variable the register does not hold.
#[verifier::loop_isolation(false)]
pub fn resolve(doc: &Doc, register: &Register) -> (r: Result<Doc, FrError>)
    requires
        register.well_formed(),
    ensures
        r matches Ok(out) ==> resolved(doc@, register@) == Ok::<DocView, Seq<char>>(out@),
        r matches Err(e) ==> resolved(doc@, register@) is Err && e@ == Fault::MissingVariable(
            resolved(doc@, register@)->Err_0,
        ),
    decreases doc,
{
    let ghost vars = register@;
    match doc {
        Doc::Text(s) => match resolve_text(s.as_str(), register) {
            Ok(t) => Ok(Doc::Text(t)),
            Err(e) => Err(e),
        },
        Doc::Array(items) => {
            proof {
                lemma_array_view(*items);
            }
            let ghost views = items_view(items@);
            let ghost results = resolved_items(views, vars);
            let mut out: Vec<Doc> = Vec::new();
            let mut i: usize = 0;
            proof {
                assert(results.take(0) =~= Seq::empty());
                assert(items_view(out@) =~= Seq::empty());
            }
            while i < items.len()
                invariant
                    i <= items.len(),
                    collect(results.take(i as int)) == Ok::<Seq<DocView>, Seq<char>>(
                        items_view(out@),
                    ),
                decreases items.len() - i,
            {
                match resolve(&items[i], register) {
                    Ok(d) => {
                        proof {
                            assert(results.take(i + 1).drop_last() =~= results.take(i as int));
                            assert(items_view(out@.push(d)) =~= items_view(out@).push(d@));
                        }
                        out.push(d);
                    },
                    Err(e) => {
                        proof {
                            assert(results.take(i + 1).drop_last() =~= results.take(i as int));
                            lemma_collect_failed(results, i + 1);
                        }
                        return Err(e);
                    },
                }
                i += 1;
            }
            proof {
                assert(results.take(i as int) =~= results);
                lemma_array_view(out);
            }
            Ok(Doc::Array(out))
        },
        Doc::Object(fields) => {
            proof {
                lemma_object_view(*fields);
            }
            match resolve_fields(fields, register) {
                Ok(out) => {
                    proof {
                        lemma_object_view(out);
                    }
                    Ok(Doc::Object(out))
                },
                Err(e) => Err(e),
            }
        },
        Doc::Null => Ok(Doc::Null),
        Doc::Bool(b) => Ok(Doc::Bool(*b)),
        Doc::Number(n) => Ok(Doc::Number(n.clone())),
    }
}

/// Resolves the value of every field of a run of fields; the names are
/// kept. Fails on the first placeholder whose variable the register does
/// not hold.
#[verifier::loop_isolation(false)]
pub fn resolve_fields(fields: &Vec<(String, Doc)>, register: &Register) -> (r: Result<
    Vec<(String, Doc)>,
    FrError,
>)
    requires
        register.well_formed(),
    ensures
        r matches Ok(out) ==> collect(resolved_values(fields_view(fields@), register@)) matches Ok(
            values,
        ) && fields_view(out@) == with_values(fields_view(fields@), values),
        r matches Err(e) ==> collect(resolved_values(fields_view(fields@), register@)) matches Err(
            name,
        ) && e@ == Fault::MissingVariable(name),
    decreases fields,
{
    let ghost views = fields_view(fields@);
    let ghost results = resolved_values(views, register@);
    let mut out: Vec<(String, Doc)> = Vec::new();
    let mut i: usize = 0;
    let ghost mut values: Seq<DocView> = Seq::empty();
    proof {
        assert(results.take(0) =~= Seq::empty());
    }
    while i < fields.len()
        invariant
            i <= fields.len(),
            out@.len() == i,
            values.len() == i,
            collect(results.take(i as int)) == Ok::<Seq<DocView>, Seq<char>>(values),
            forall|j: int|
                0 <= j < i ==> (#[trigger] out@[j]).0@ == views[j].0 && out@[j].1@ == values[j],
        decreases fields.len() - i,
    {
        proof {
            assert(results.take(i + 1).drop_last() =~= results.take(i as int));
        }
        match resolve(&fields[i].1, register) {
            Ok(d) => {
                proof {
                    values = values.push(d@);
                }
                out.push((fields[i].0.clone(), d));
            },
            Err(e) => {
                proof {
                    lemma_collect_failed(results, i + 1);
                }
                return Err(e);
            },
        }
        i += 1;
    }
    proof {
        assert(results.take(i as int) =~= results);
        assert(fields_view(out@) =~= with_values(views, values));
    }
    Ok(out)
}

/// Resolving a document that holds no placeholder, escaped or not, returns
/// it unchanged: on a document that is resolved already, resolving again
/// does nothing.
pub proof fn law_plain_unchanged(doc: DocView, vars: Map<Seq<char>, Seq<char>>)
    requires
        plain(doc),
    ensures
        resolved(doc, vars) == Ok::<DocView, Seq<char>>(doc),
    decreases doc,
{
    match doc {
        DocView::Text(s) => {
            law_plain_text_unchanged(s, vars);
        },
        DocView::Array(items) => {
            let results = resolved_items(items, vars);
            assert forall|i: int| 0 <= i < results.len() implies #[trigger] results[i] == Ok::<
                DocView,
                Seq<char>,
            >(items[i]) by {
                law_plain_unchanged(items[i], vars);
            }
            lemma_collect_all(results, items);
        },
        DocView::Object(fields) => {
            let results = resolved_values(fields, vars);
            let values = Seq::new(fields.len(), |i: int| fields[i].1);
            assert forall|i: int| 0 <= i < results.len() implies #[trigger] results[i] == Ok::<
                DocView,
                Seq<char>,
            >(values[i]) by {
                law_plain_unchanged(fields[i].1, vars);
            }
            lemma_collect_all(results, values);
            assert(with_values(fields, values) =~= fields);
        },
        _ => {},
    }
}

} // verus!
