//! Checking an observed document against a template: a placeholder stands
//! for anything, every other leaf for itself, and what the template does not
//! mention is not looked at unless exact matching is asked for.

use vstd::prelude::*;
use crate::document::{
    field_of, fields_view, find_field, items_view, lemma_array_view, lemma_object_view, Doc,
    DocView,
};
use crate::error::{path_view, Fault, FrError, PathStep, StepView};
use crate::placeholder::{
    is_name_char, is_wildcard, lemma_name_run_exact, placeholder_for, token_at, wildcard,
};
use crate::text::same;

verus! {

/// How observed fields that the template does not mention are treated.
#[derive(Debug, Clone, Copy, PartialEq, Eq, Structural)]
pub enum MatchMode {
    /// They are ignored: the template is matched as a subset.
    Subset,
    /// They fail the match: an object must have the template's fields only.
    Exact,
}

/// The first of a run of findings that is one.
pub open spec fn first_some<T>(options: Seq<Option<T>>) -> Option<T>
    decreases options.len(),
{
    if options.len() == 0 {
        None
    } else {
        match first_some(options.drop_last()) {
            Some(x) => Some(x),
            None => options.last(),
        }
    }
}

/// A path found below a child, seen from the parent.
pub open spec fn under(step: StepView, found: Option<Seq<StepView>>) -> Option<Seq<StepView>> {
    match found {
        Some(path) => Some(seq![step] + path),
        None => None,
    }
}

/// Where the observed document first fails the template, as the path from
/// the root to the failing node; `None` where it meets the template.
///
/// A text leaf that is one placeholder is met by anything. Any other leaf is
/// met only by an equal leaf. An array is met by an array of the same length
/// whose items meet the template's items, each at its place. An object is
/// met by an object that has, for every field of the template, a field of
/// that name that meets it; its other fields do not count in subset mode
/// and fail, each at its own place, in exact mode, after the template's
/// fields.
pub open spec fn mismatch(expected: DocView, observed: DocView, mode: MatchMode) -> Option<
    Seq<StepView>,
>
    decreases expected,
{
    match expected {
        DocView::Text(s) => if is_wildcard(s) || observed == expected {
            None
        } else {
            Some(Seq::empty())
        },
        DocView::Array(items) => match observed {
            DocView::Array(others) => if others.len() == items.len() {
                first_some(item_mismatches(items, others, mode))
            } else {
                Some(Seq::empty())
            },
            _ => Some(Seq::empty()),
        },
        DocView::Object(fields) => match observed {
            DocView::Object(others) => match first_some(field_mismatches(fields, others, mode)) {
                Some(path) => Some(path),
                None => if mode is Exact {
                    first_some(unexpected_fields(fields, others))
                } else {
                    None
                },
            },
            _ => Some(Seq::empty()),
        },
        _ => if observed == expected {
            None
        } else {
            Some(Seq::empty())
        },
    }
}

/// For each item of a template array, where the item at its place fails it.
pub open spec fn item_mismatches(
    items: Seq<DocView>,
    others: Seq<DocView>,
    mode: MatchMode,
) -> Seq<Option<Seq<StepView>>>
    decreases items,
{
    Seq::new(
        items.len(),
        |i: int|
            if 0 <= i < items.len() {
                under(StepView::Index(i as nat), mismatch(items[i], others[i], mode))
            } else {
                None
            },
    )
}

/// For each field of a template object, where the observed field of its name
/// fails it; a field that is not there fails at its own place.
pub open spec fn field_mismatches(
    fields: Seq<(Seq<char>, DocView)>,
    others: Seq<(Seq<char>, DocView)>,
    mode: MatchMode,
) -> Seq<Option<Seq<StepView>>>
    decreases fields,
{
    Seq::new(
        fields.len(),
        |i: int|
            if 0 <= i < fields.len() {
                match field_of(others, fields[i].0) {
                    Some(other) => under(
                        StepView::Field(fields[i].0),
                        mismatch(fields[i].1, other, mode),
                    ),
                    None => Some(seq![StepView::Field(fields[i].0)]),
                }
            } else {
                None
            },
    )
}

/// For each observed field, its own place where the template has no field
/// of its name.
pub open spec fn unexpected_fields(
    fields: Seq<(Seq<char>, DocView)>,
    others: Seq<(Seq<char>, DocView)>,
) -> Seq<Option<Seq<StepView>>> {
    Seq::new(
        others.len(),
        |i: int|
            if field_of(fields, others[i].0) is None {
                Some(seq![StepView::Field(others[i].0)])
            } else {
                None
            },
    )
}

/// A run of findings holds none exactly if each of them is none.
pub proof fn lemma_first_some_none<T>(options: Seq<Option<T>>)
    ensures
        first_some(options) is None <==> forall|i: int|
            0 <= i < options.len() ==> (#[trigger] options[i]) is None,
    decreases options.len(),
{
    if options.len() > 0 {
        let shorter = options.drop_last();
        lemma_first_some_none(shorter);
        if first_some(options) is None {
            assert forall|i: int| 0 <= i < options.len() implies (#[trigger] options[i]) is None by {
                if i < shorter.len() {
                    assert(shorter[i] == options[i]);
                }
            }
        }
        if forall|i: int| 0 <= i < options.len() ==> (#[trigger] options[i]) is None {
            assert forall|i: int| 0 <= i < shorter.len() implies (#[trigger] shorter[i]) is None by {
                assert(shorter[i] == options[i]);
            }
            assert(options.last() == options[options.len() - 1]);
        }
    }
}

/// A finding among the first of a run is the first finding of them all.
pub proof fn lemma_first_some_found<T>(options: Seq<Option<T>>, k: int)
    requires
        0 <= k <= options.len(),
        first_some(options.take(k)) is Some,
    ensures
        first_some(options) == first_some(options.take(k)),
    decreases options.len() - k,
{
    if k < options.len() {
        assert(options.take(k + 1).drop_last() =~= options.take(k));
        lemma_first_some_found(options, k + 1);
    } else {
        assert(options.take(k) =~= options);
    }
}

/// Whether a leaf of a template equals the observed document.
fn leaf_equal(expected: &Doc, observed: &Doc) -> (r: bool)
    requires
        !(expected is Array),
        !(expected is Object),
    ensures
        r == (observed@ == expected@),
{
    match (expected, observed) {
        (Doc::Null, Doc::Null) => true,
        (Doc::Bool(a), Doc::Bool(b)) => *a == *b,
        (Doc::Number(a), Doc::Number(b)) => same(a.as_str(), b.as_str()),
        (Doc::Text(a), Doc::Text(b)) => same(a.as_str(), b.as_str()),
        _ => false,
    }
}

/// Puts a step in front of a path.
fn step_under(step: PathStep, path: Vec<PathStep>) -> (r: Vec<PathStep>)
    ensures
        path_view(r@) == seq![step@] + path_view(path@),
{
    let mut out = path;
    out.insert(0, step);
    proof {
        assert(path_view(out@) =~= seq![step@] + path_view(path@));
    }
    out
}

/// Finds the first observed field that the template does not mention.
fn unexpected_field(fields: &Vec<(String, Doc)>, others: &Vec<(String, Doc)>) -> (r: Option<
    Vec<PathStep>,
>)
    ensures
        r matches Some(path) ==> first_some(
            unexpected_fields(fields_view(fields@), fields_view(others@)),
        ) == Some(path_view(path@)),
        r is None ==> first_some(unexpected_fields(fields_view(fields@), fields_view(others@)))
            is None,
{
    let ghost results = unexpected_fields(fields_view(fields@), fields_view(others@));
    let mut i: usize = 0;
    proof {
        assert(results.take(0) =~= Seq::empty());
    }
    while i < others.len()
        invariant
            i <= others.len(),
            results == unexpected_fields(fields_view(fields@), fields_view(others@)),
            first_some(results.take(i as int)) is None,
        decreases others.len() - i,
    {
        proof {
            assert(results.take(i + 1).drop_last() =~= results.take(i as int));
        }
        if find_field(fields, others[i].0.as_str()).is_none() {
            let mut path: Vec<PathStep> = Vec::new();
            path.push(PathStep::Field(others[i].0.clone()));
            proof {
                lemma_first_some_found(results, i + 1);
                assert(path_view(path@) =~= seq![StepView::Field(others@[i as int].0@)]);
            }
            return Some(path);
        }
        i += 1;
    }
    proof {
        assert(results.take(i as int) =~= results);
    }
    None
}

/// Finds where `observed` first fails the template `expected`.
#[verifier::loop_isolation(false)]
pub fn mismatch_path(expected: &Doc, observed: &Doc, mode: MatchMode) -> (r: Option<Vec<PathStep>>)
    ensures
        r matches Some(path) ==> mismatch(expected@, observed@, mode) == Some(path_view(path@)),
        r is None ==> mismatch(expected@, observed@, mode) is None,
    decreases expected,
{
    let ghost root: Seq<StepView> = Seq::empty();
    match expected {
        Doc::Array(items) => {
            proof {
                lemma_array_view(*items);
            }
            match observed {
                Doc::Array(others) => {
                    proof {
                        lemma_array_view(*others);
                    }
                    if others.len() != items.len() {
                        let path: Vec<PathStep> = Vec::new();
                        proof {
                            assert(path_view(path@) =~= root);
                        }
                        return Some(path);
                    }
                    let ghost results = item_mismatches(
                        items_view(items@),
                        items_view(others@),
                        mode,
                    );
                    let mut i: usize = 0;
                    proof {
                        assert(results.take(0) =~= Seq::empty());
                    }
                    while i < items.len()
                        invariant
                            i <= items.len(),
                            first_some(results.take(i as int)) is None,
                        decreases items.len() - i,
                    {
                        proof {
                            assert(results.take(i + 1).drop_last() =~= results.take(i as int));
                        }
                        match mismatch_path(&items[i], &others[i], mode) {
                            Some(path) => {
                                proof {
                                    lemma_first_some_found(results, i + 1);
                                }
                                return Some(step_under(PathStep::Index(i), path));
                            },
                            None => {},
                        }
                        i += 1;
                    }
                    proof {
                        assert(results.take(i as int) =~= results);
                    }
                    None
                },
                _ => {
                    let path: Vec<PathStep> = Vec::new();
                    proof {
                        assert(path_view(path@) =~= root);
                    }
                    Some(path)
                },
            }
        },
        Doc::Object(fields) => {
            proof {
                lemma_object_view(*fields);
            }
            match observed {
                Doc::Object(others) => {
                    proof {
                        lemma_object_view(*others);
                    }
                    let ghost results = field_mismatches(
                        fields_view(fields@),
                        fields_view(others@),
                        mode,
                    );
                    let mut i: usize = 0;
                    proof {
                        assert(results.take(0) =~= Seq::empty());
                    }
                    while i < fields.len()
                        invariant
                            i <= fields.len(),
                            first_some(results.take(i as int)) is None,
                        decreases fields.len() - i,
                    {
                        proof {
                            assert(results.take(i + 1).drop_last() =~= results.take(i as int));
                        }
                        let found = match find_field(others, fields[i].0.as_str()) {
                            Some(other) => mismatch_path(&fields[i].1, other, mode),
                            None => {
                                let path: Vec<PathStep> = Vec::new();
                                proof {
                                    assert(path_view(path@) =~= root);
                                }
                                Some(path)
                            },
                        };
                        match found {
                            Some(path) => {
                                proof {
                                    lemma_first_some_found(results, i + 1);
                                    assert(seq![StepView::Field(fields[i as int].0@)] + root
                                        =~= seq![StepView::Field(fields[i as int].0@)]);
                                }
                                return Some(step_under(PathStep::Field(fields[i].0.clone()), path));
                            },
                            None => {},
                        }
                        i += 1;
                    }
                    proof {
                        assert(results.take(i as int) =~= results);
                    }
                    match mode {
                        MatchMode::Exact => unexpected_field(fields, others),
                        MatchMode::Subset => None,
                    }
                },
                _ => {
                    let path: Vec<PathStep> = Vec::new();
                    proof {
                        assert(path_view(path@) =~= root);
                    }
                    Some(path)
                },
            }
        },
        _ => {
            let free = match expected {
                Doc::Text(s) => wildcard(s.as_str()),
                _ => false,
            };
            if free || leaf_equal(expected, observed) {
                None
            } else {
                let path: Vec<PathStep> = Vec::new();
                proof {
                    assert(path_view(path@) =~= root);
                }
                Some(path)
            }
        },
    }
}

/// Checks an observed document against a template. Fails with the path of
/// the first node at which the observed document does not meet it.
pub fn match_template(expected: &Doc, observed: &Doc, mode: MatchMode) -> (r: Result<(), FrError>)
    ensures
        r is Ok ==> mismatch(expected@, observed@, mode) is None,
        r matches Err(e) ==> mismatch(expected@, observed@, mode) is Some && e@
            == Fault::ResponseMismatch(mismatch(expected@, observed@, mode)->Some_0),
{
    match mismatch_path(expected, observed, mode) {
        Some(path) => Err(FrError::ResponseMismatch(path)),
        None => Ok(()),
    }
}

/// A leaf that is one placeholder is met by every document, in either mode.
pub proof fn law_wildcard_meets_all(name: Seq<char>, observed: DocView, mode: MatchMode)
    requires
        name.len() > 0,
        forall|i: int| 0 <= i < name.len() ==> is_name_char(#[trigger] name[i]),
    ensures
        mismatch(DocView::Text(placeholder_for(name)), observed, mode) is None,
{
    let s = placeholder_for(name);
    let end: int = 2 + name.len() as int;
    assert(s.len() == end + 1);
    assert(s[0] == '$' && s[1] == '{');
    assert forall|i: int| 2 <= i < end implies is_name_char(#[trigger] s[i]) by {
        assert(s[i] == name[i - 2]);
    }
    assert(s[end] == '}');
    lemma_name_run_exact(s, 2, end);
    assert(token_at(s, 0));
}

/// Exact matching is the stricter mode: what meets a template exactly
/// meets it as a subset.
pub proof fn law_exact_is_stricter(expected: DocView, observed: DocView)
    requires
        mismatch(expected, observed, MatchMode::Exact) is None,
    ensures
        mismatch(expected, observed, MatchMode::Subset) is None,
    decreases expected,
{
    match (expected, observed) {
        (DocView::Array(items), DocView::Array(others)) => {
            let exact = item_mismatches(items, others, MatchMode::Exact);
            let subset = item_mismatches(items, others, MatchMode::Subset);
            lemma_first_some_none(exact);
            assert forall|i: int| 0 <= i < subset.len() implies (#[trigger] subset[i]) is None by {
                assert(exact[i] is None);
                law_exact_is_stricter(items[i], others[i]);
            }
            lemma_first_some_none(subset);
        },
        (DocView::Object(fields), DocView::Object(others)) => {
            let exact = field_mismatches(fields, others, MatchMode::Exact);
            let subset = field_mismatches(fields, others, MatchMode::Subset);
            lemma_first_some_none(exact);
            assert forall|i: int| 0 <= i < subset.len() implies (#[trigger] subset[i]) is None by {
                assert(exact[i] is None);
                let other = field_of(others, fields[i].0);
                law_exact_is_stricter(fields[i].1, other->Some_0);
            }
            lemma_first_some_none(subset);
        },
        _ => {},
    }
}

} // verus!
