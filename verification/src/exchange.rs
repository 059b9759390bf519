//! One exchange of a frame: building its request from the register, checking
//! the observed response, and taking the frame's writes from it.

use vstd::prelude::*;
use crate::cut::{merged, Register};
use crate::document::{fields_view, Doc, DocView};
use crate::error::{Fault, FrError};
use crate::frame::{
    is_least_missing, response_document, Frame, Request, RequestView, Response, ResponseView,
};
use crate::json::{
    doc_from_json, is_supported, json_doc, json_parsed, json_select, json_selected, parse_json,
    supported_expression,
};
use crate::matching::{match_template, mismatch, MatchMode};
use crate::ordered::{lemma_pairs_map_push, pairs_map};
use crate::placeholder::{resolve_text, resolved_text};
use crate::resolve::{
    collect, lemma_collect_failed, resolve, resolve_fields, resolved, resolved_values,
    with_values,
};

verus! {

/// A response as it was observed: its status, its body read from JSON text,
/// and any further fields.
#[derive(Debug)]
pub struct Observed {
    response: Response,
    json: serde_json::Value,
}

impl Observed {
    /// What was observed, as a response.
    pub closed spec fn response(&self) -> ResponseView {
        self.response@
    }

    /// The body is the document that the JSON value holds.
    pub closed spec fn well_formed(&self) -> bool {
        json_doc(self.json) == self.response.body@
    }

    /// Takes an observed status and the JSON text of an observed body.
    pub fn read(status: u32, body: &str) -> (r: Result<Observed, FrError>)
        ensures
            r matches Ok(o) ==> o.well_formed() && json_parsed(body@) == Some(o.response().body)
                && o.response().status == status && o.response().etc == Seq::<
                (Seq<char>, DocView),
            >::empty(),
            r matches Err(e) ==> json_parsed(body@) is None && e@ == Fault::Parse,
    {
        match parse_json(body) {
            Some(json) => {
                let doc = doc_from_json(&json);
                let o = Observed { response: Response { body: doc, etc: Vec::new(), status }, json };
                proof {
                    assert(o.response().etc =~= Seq::<(Seq<char>, DocView)>::empty());
                }
                Ok(o)
            },
            None => Err(FrError::Parse),
        }
    }

    /// Adds a further field to what was observed.
    pub fn with_field(self, name: &str, value: Doc) -> (r: Observed)
        requires
            self.well_formed(),
        ensures
            r.well_formed(),
            r.response().body == self.response().body,
            r.response().status == self.response().status,
            r.response().etc == self.response().etc.push((name@, value@)),
    {
        let Observed { response, json } = self;
        let Response { body, etc, status } = response;
        let mut etc = etc;
        let ghost before = etc@;
        etc.push((name.to_owned(), value));
        proof {
            assert(fields_view(etc@) =~= fields_view(before).push((name@, value@)));
        }
        Observed { response: Response { body, etc, status }, json }
    }

    /// What was observed, as a response.
    pub fn as_response(&self) -> (r: &Response)
        ensures
            r@ == self.response(),
    {
        &self.response
    }
}

/// The request with every placeholder of its body, of its further fields and
/// of its address resolved, in this order; or the name of the first
/// placeholder that has no value.
pub open spec fn resolved_request(request: RequestView, vars: Map<Seq<char>, Seq<char>>) -> Result<
    RequestView,
    Seq<char>,
> {
    match resolved(request.body, vars) {
        Err(name) => Err(name),
        Ok(body) => match collect(resolved_values(request.etc, vars)) {
            Err(name) => Err(name),
            Ok(values) => match resolved_text(request.uri, vars) {
                Err(name) => Err(name),
                Ok(uri) => Ok(RequestView { body, etc: with_values(request.etc, values), uri }),
            },
        },
    }
}

/// The views of a run of pairs of strings.
pub open spec fn pairs_view(pairs: Seq<(String, String)>) -> Seq<(Seq<char>, Seq<char>)> {
    Seq::new(pairs.len(), |i: int| (pairs[i].0@, pairs[i].1@))
}

/// The view of a document that may be missing.
pub open spec fn option_view(option: Option<Doc>) -> Option<DocView> {
    match option {
        Some(d) => Some(d@),
        None => None,
    }
}

/// The views of a run of documents that may be missing.
pub open spec fn options_view(options: Seq<Option<Doc>>) -> Seq<Option<DocView>> {
    Seq::new(options.len(), |i: int| option_view(options[i]))
}

/// The text that a selected value gives a variable: a text itself, a number
/// as it is written, a boolean as `true` or `false`. Nothing else gives one.
pub open spec fn scalar_text(doc: DocView) -> Option<Seq<char>> {
    match doc {
        DocView::Text(s) => Some(s),
        DocView::Number(n) => Some(n),
        DocView::Bool(b) => Some(
            if b {
                "true"@
            } else {
                "false"@
            },
        ),
        _ => None,
    }
}

/// What the query evaluator selects from `body` for each write; an
/// expression that cannot be handed to it selects nothing.
pub open spec fn query_results(writes: Seq<(Seq<char>, Seq<char>)>, body: DocView) -> Seq<
    Option<DocView>,
> {
    Seq::new(
        writes.len(),
        |i: int|
            if supported_expression(writes[i].1) {
                json_selected(body, writes[i].1)
            } else {
                None
            },
    )
}

/// What one write yields from what was selected for it: the variable with
/// its new value, or the failure of the write.
pub open spec fn write_value(write: (Seq<char>, Seq<char>), selected: Option<DocView>) -> Result<
    (Seq<char>, Seq<char>),
    Fault,
> {
    match selected {
        Some(doc) => match scalar_text(doc) {
            Some(text) => Ok((write.0, text)),
            None => Err(Fault::PathQuery(write.0, write.1)),
        },
        None => Err(Fault::PathQuery(write.0, write.1)),
    }
}

/// What each write yields; a write for which nothing was handed in yields
/// its failure.
pub open spec fn write_outcomes(
    writes: Seq<(Seq<char>, Seq<char>)>,
    selected: Seq<Option<DocView>>,
) -> Seq<Result<(Seq<char>, Seq<char>), Fault>> {
    Seq::new(
        writes.len(),
        |i: int|
            write_value(
                writes[i],
                if i < selected.len() {
                    selected[i]
                } else {
                    None
                },
            ),
    )
}

/// All the variables with their new values, or the failure of the first
/// write that fails: either every write yields or none counts.
pub open spec fn write_values(
    writes: Seq<(Seq<char>, Seq<char>)>,
    selected: Seq<Option<DocView>>,
) -> Result<Seq<(Seq<char>, Seq<char>)>, Fault> {
    collect(write_outcomes(writes, selected))
}

/// The text that a selected value gives a variable.
fn scalar_of(doc: &Doc) -> (r: Option<String>)
    ensures
        r matches Some(s) ==> scalar_text(doc@) == Some(s@),
        r is None ==> scalar_text(doc@) is None,
{
    match doc {
        Doc::Text(s) => Some(s.clone()),
        Doc::Number(n) => Some(n.clone()),
        Doc::Bool(b) => Some(
            if *b {
                "true".to_owned()
            } else {
                "false".to_owned()
            },
        ),
        _ => None,
    }
}

/// Turns what was selected for each write into the variables' new values.
/// Fails with the first write for which nothing usable was selected; then no
/// value is returned at all.
pub fn settle_writes(writes: &Vec<(String, String)>, selected: &Vec<Option<Doc>>) -> (r: Result<
    Vec<(String, String)>,
    FrError,
>)
    ensures
        r matches Ok(values) ==> write_values(pairs_view(writes@), options_view(selected@)) == Ok::<
            Seq<(Seq<char>, Seq<char>)>,
            Fault,
        >(pairs_view(values@)),
        r matches Err(e) ==> write_values(pairs_view(writes@), options_view(selected@)) == Err::<
            Seq<(Seq<char>, Seq<char>)>,
            Fault,
        >(e@),
{
    let ghost outcomes = write_outcomes(pairs_view(writes@), options_view(selected@));
    let mut out: Vec<(String, String)> = Vec::new();
    let mut i: usize = 0;
    proof {
        assert(outcomes.take(0) =~= Seq::empty());
        assert(pairs_view(out@) =~= Seq::empty());
    }
    while i < writes.len()
        invariant
            i <= writes.len(),
            outcomes == write_outcomes(pairs_view(writes@), options_view(selected@)),
            collect(outcomes.take(i as int)) == Ok::<Seq<(Seq<char>, Seq<char>)>, Fault>(
                pairs_view(out@),
            ),
        decreases writes.len() - i,
    {
        proof {
            assert(outcomes.take(i + 1).drop_last() =~= outcomes.take(i as int));
        }
        let text = if i < selected.len() {
            match &selected[i] {
                Some(doc) => scalar_of(doc),
                None => None,
            }
        } else {
            None
        };
        match text {
            Some(value) => {
                let ghost before = out@;
                out.push((writes[i].0.clone(), value));
                proof {
                    assert(pairs_view(out@) =~= pairs_view(before).push(
                        (writes@[i as int].0@, value@),
                    ));
                }
            },
            None => {
                proof {
                    lemma_collect_failed(outcomes, i + 1);
                }
                return Err(FrError::PathQuery(writes[i].0.clone(), writes[i].1.clone()));
            },
        }
        i += 1;
    }
    proof {
        assert(outcomes.take(i as int) =~= outcomes);
    }
    Ok(out)
}

/// Gives the register every variable of `values` with its value, in order.
pub fn store_all(register: &mut Register, values: &Vec<(String, String)>)
    requires
        old(register).well_formed(),
    ensures
        final(register).well_formed(),
        final(register)@ == merged(old(register)@, pairs_map(pairs_view(values@))),
{
    let ghost before = register@;
    let ghost all = pairs_view(values@);
    let mut i: usize = 0;
    proof {
        assert(all.take(0) =~= Seq::empty());
        assert(register@ =~= merged(before, pairs_map(all.take(0))));
    }
    while i < values.len()
        invariant
            i <= values.len(),
            all == pairs_view(values@),
            register.well_formed(),
            register@ == merged(before, pairs_map(all.take(i as int))),
        decreases values.len() - i,
    {
        register.insert(values[i].0.as_str(), values[i].1.as_str());
        proof {
            let shorter = all.take(i as int);
            assert(all.take(i + 1) =~= shorter.push((values@[i as int].0@, values@[i as int].1@)));
            lemma_pairs_map_push(shorter, values@[i as int].0@, values@[i as int].1@);
            assert(register@ =~= merged(before, pairs_map(all.take(i + 1))));
        }
        i += 1;
    }
    proof {
        assert(all.take(i as int) =~= all);
    }
}

impl Frame {
    /// Builds the frame's request from the register. Fails, before anything
    /// is resolved, with the least variable that the frame reads and the
    /// register does not hold; then with the first placeholder that has no
    /// value.
    pub fn build_request(&self, register: &Register) -> (r: Result<Request, FrError>)
        requires
            self.well_formed(),
            register.well_formed(),
        ensures
            !self@.cut.reads.subset_of(register@.dom()) ==> (r matches Err(
                FrError::MissingVariable(name),
            ) && is_least_missing(self@.cut.reads, register@, name@)),
            self@.cut.reads.subset_of(register@.dom()) ==> match resolved_request(
                self@.request,
                register@,
            ) {
                Ok(request) => r matches Ok(built) && built@ == request,
                Err(name) => r matches Err(e) && e@ == Fault::MissingVariable(name),
            },
    {
        match self.cut.check_reads(register) {
            Err(e) => {
                return Err(e);
            },
            Ok(()) => {},
        }
        let body = match resolve(&self.request.body, register) {
            Ok(d) => d,
            Err(e) => {
                return Err(e);
            },
        };
        let etc = match resolve_fields(&self.request.etc, register) {
            Ok(fields) => fields,
            Err(e) => {
                return Err(e);
            },
        };
        let uri = match resolve_text(self.request.uri.as_str(), register) {
            Ok(s) => s,
            Err(e) => {
                return Err(e);
            },
        };
        Ok(Request { body, etc, uri })
    }

    /// Checks an observed response against the expected one, in the given
    /// mode. Fails with the path of the first node at which it does not meet
    /// the template.
    pub fn check_response(&self, observed: &Observed, mode: MatchMode) -> (r: Result<
        (),
        FrError,
    >)
        ensures
            r is Ok ==> mismatch(
                response_document(self@.response),
                response_document(observed.response()),
                mode,
            ) is None,
            r matches Err(e) ==> mismatch(
                response_document(self@.response),
                response_document(observed.response()),
                mode,
            ) matches Some(path) && e@ == Fault::ResponseMismatch(path),
    {
        let expected = self.response.to_document();
        let found = observed.response.to_document();
        match_template(&expected, &found, mode)
    }

    /// Has the query evaluator select, from the observed body, a value for
    /// each write.
    pub fn query_writes(&self, observed: &Observed) -> (r: Vec<Option<Doc>>)
        requires
            self.well_formed(),
            observed.well_formed(),
        ensures
            options_view(r@) == query_results(self.cut.write_entries(), observed.response().body),
    {
        let writes = self.cut.writes().iter();
        let ghost entries = self.cut.write_entries();
        let ghost body = observed.response().body;
        let mut out: Vec<Option<Doc>> = Vec::new();
        let mut i: usize = 0;
        while i < writes.len()
            invariant
                i <= writes.len(),
                writes@.len() == entries.len(),
                forall|j: int| 0 <= j < writes@.len() ==> (#[trigger] writes@[j]).1@ == entries[j].1,
                body == json_doc(observed.json),
                out@.len() == i,
                forall|j: int|
                    0 <= j < i ==> option_view(#[trigger] out@[j]) == query_results(
                        entries,
                        body,
                    )[j],
            decreases writes.len() - i,
        {
            let expression = writes[i].1.as_str();
            let selected = if is_supported(expression) {
                match json_select(&observed.json, expression) {
                    Some(value) => Some(doc_from_json(&value)),
                    None => None,
                }
            } else {
                None
            };
            out.push(selected);
            i += 1;
        }
        proof {
            assert(options_view(out@) =~= query_results(entries, body));
        }
        out
    }

    /// Takes the values of the frame's writes from an observed response.
    /// Fails with the first write for which nothing usable is selected.
    pub fn read_writes(&self, observed: &Observed) -> (r: Result<Vec<(String, String)>, FrError>)
        requires
            self.well_formed(),
            observed.well_formed(),
        ensures
            r matches Ok(values) ==> write_values(
                self.cut.write_entries(),
                query_results(self.cut.write_entries(), observed.response().body),
            ) == Ok::<Seq<(Seq<char>, Seq<char>)>, Fault>(pairs_view(values@)),
            r matches Err(e) ==> write_values(
                self.cut.write_entries(),
                query_results(self.cut.write_entries(), observed.response().body),
            ) == Err::<Seq<(Seq<char>, Seq<char>)>, Fault>(e@),
    {
        let writes = self.cut.writes().iter();
        proof {
            assert(pairs_view(writes@) =~= self.cut.write_entries());
        }
        let selected = self.query_writes(observed);
        settle_writes(&writes, &selected)
    }

    /// Handles an observed response: checks it against the expected one and,
    /// where it meets it, writes the frame's variables to the register. On
    /// any failure the register is left as it was.
    pub fn take_response(
        &self,
        register: &mut Register,
        observed: &Observed,
        mode: MatchMode,
    ) -> (r: Result<(), FrError>)
        requires
            self.well_formed(),
            observed.well_formed(),
            old(register).well_formed(),
        ensures
            final(register).well_formed(),
            match mismatch(
                response_document(self@.response),
                response_document(observed.response()),
                mode,
            ) {
                Some(path) => r matches Err(e) && e@ == Fault::ResponseMismatch(path)
                    && final(register)@ == old(register)@,
                None => match write_values(
                    self.cut.write_entries(),
                    query_results(self.cut.write_entries(), observed.response().body),
                ) {
                    Ok(values) => r is Ok && final(register)@ == merged(
                        old(register)@,
                        pairs_map(values),
                    ),
                    Err(fault) => r matches Err(e) && e@ == fault && final(register)@ == old(register)@,
                },
            },
    {
        match self.check_response(observed, mode) {
            Err(e) => {
                return Err(e);
            },
            Ok(()) => {},
        }
        match self.read_writes(observed) {
            Err(e) => Err(e),
            Ok(values) => {
                store_all(register, &values);
                Ok(())
            },
        }
    }
}

} // verus!
