//! A frame: one scripted exchange, with the variables it reads and writes.

use vstd::prelude::*;
use crate::cut::{decoded, entries_document, law_read_back, text_of, Register};
use crate::document::{
    field_of, fields_view, find_field, items_view, lemma_array_view, lemma_object_view, Doc,
    DocView,
};
use crate::error::{Fault, FrError};
use crate::number::{decimal, decimal_text, lemma_decimal_read_back, number_of, parse_u32};
use crate::ordered::{
    ascending, lemma_ascending_unique, lemma_lookup_found, lemma_lookup_present,
    lemma_pairs_map_push, lemma_same_keys, pairs_map, Ordered,
};
use crate::text::{lex_less, same};

verus! {

/// The protocol that a frame's exchange runs over.
#[derive(Debug, Clone, Copy, PartialEq, Eq, Structural)]
pub enum Protocol {
    GRPC,
    HTTP,
}

/// The fields named neither `first` nor `second`, in their order.
pub open spec fn rest_of(
    fields: Seq<(Seq<char>, DocView)>,
    first: Seq<char>,
    second: Seq<char>,
) -> Seq<(Seq<char>, DocView)>
    decreases fields.len(),
{
    if fields.len() == 0 {
        Seq::empty()
    } else if fields.last().0 == first || fields.last().0 == second {
        rest_of(fields.drop_last(), first, second)
    } else {
        rest_of(fields.drop_last(), first, second).push(fields.last())
    }
}

/// Copies the fields named neither `first` nor `second`.
fn other_fields(fields: &Vec<(String, Doc)>, first: &str, second: &str) -> (r: Vec<(String, Doc)>)
    ensures
        fields_view(r@) == rest_of(fields_view(fields@), first@, second@),
{
    let ghost all = fields_view(fields@);
    let mut out: Vec<(String, Doc)> = Vec::new();
    let mut i: usize = 0;
    proof {
        assert(all.take(0) =~= Seq::empty());
        assert(fields_view(out@) =~= Seq::empty());
    }
    while i < fields.len()
        invariant
            i <= fields.len(),
            all == fields_view(fields@),
            fields_view(out@) == rest_of(all.take(i as int), first@, second@),
        decreases fields.len() - i,
    {
        proof {
            assert(all.take(i + 1).drop_last() =~= all.take(i as int));
        }
        let name = fields[i].0.as_str();
        if !same(name, first) && !same(name, second) {
            let ghost before = out@;
            let copy = (fields[i].0.clone(), fields[i].1.duplicate());
            out.push(copy);
            proof {
                assert(fields_view(out@) =~= fields_view(before).push(all[i as int]));
            }
        }
        i += 1;
    }
    proof {
        assert(all.take(i as int) =~= all);
    }
    out
}

/// Copies a run of fields.
pub fn duplicate_fields(fields: &Vec<(String, Doc)>) -> (r: Vec<(String, Doc)>)
    ensures
        fields_view(r@) == fields_view(fields@),
{
    let mut out: Vec<(String, Doc)> = Vec::new();
    let mut i: usize = 0;
    while i < fields.len()
        invariant
            i <= fields.len(),
            out@.len() == i,
            forall|j: int|
                0 <= j < i ==> (#[trigger] out@[j]).0@ == fields@[j].0@ && out@[j].1@
                    == fields@[j].1@,
        decreases fields.len() - i,
    {
        out.push((fields[i].0.clone(), fields[i].1.duplicate()));
        i += 1;
    }
    proof {
        assert(fields_view(out@) =~= fields_view(fields@));
    }
    out
}

/// The request of an exchange: where it goes, what it carries, and any
/// further fields, which are kept as they are.
#[derive(Debug, PartialEq, Eq)]
pub struct Request {
    pub body: Doc,
    pub etc: Vec<(String, Doc)>,
    pub uri: String,
}

/// The mathematical value of a [`Request`].
pub struct RequestView {
    pub body: DocView,
    pub etc: Seq<(Seq<char>, DocView)>,
    pub uri: Seq<char>,
}

impl View for Request {
    type V = RequestView;

    open spec fn view(&self) -> RequestView {
        RequestView { body: self.body@, etc: fields_view(self.etc@), uri: self.uri@ }
    }
}

/// The request that a document describes: an object with a `body` and a
/// text `uri`; its other fields are the request's further fields.
pub open spec fn decoded_request(doc: DocView) -> Option<RequestView> {
    match doc {
        DocView::Object(fields) => match (field_of(fields, "body"@), field_of(fields, "uri"@)) {
            (Some(body), Some(DocView::Text(uri))) => Some(
                RequestView { body, etc: rest_of(fields, "body"@, "uri"@), uri },
            ),
            _ => None,
        },
        _ => None,
    }
}

/// The document of a request: `body`, the further fields at the same level,
/// then `uri`.
pub open spec fn request_document(request: RequestView) -> DocView {
    DocView::Object(
        seq![("body"@, request.body)] + request.etc + seq![("uri"@, DocView::Text(request.uri))],
    )
}

impl Request {
    /// Reads a request from its document.
    pub fn from_document(doc: &Doc) -> (r: Result<Request, FrError>)
        ensures
            r matches Ok(request) ==> decoded_request(doc@) == Some(request@),
            r matches Err(e) ==> decoded_request(doc@) is None && e@ == Fault::Parse,
    {
        match doc {
            Doc::Object(fields) => {
                proof {
                    lemma_object_view(*fields);
                }
                let body = match find_field(fields, "body") {
                    Some(d) => d.duplicate(),
                    None => {
                        return Err(FrError::Parse);
                    },
                };
                let uri = match find_field(fields, "uri") {
                    Some(Doc::Text(s)) => s.clone(),
                    _ => {
                        return Err(FrError::Parse);
                    },
                };
                Ok(Request { body, etc: other_fields(fields, "body", "uri"), uri })
            },
            _ => Err(FrError::Parse),
        }
    }

    /// Writes the request as a document.
    pub fn to_document(&self) -> (doc: Doc)
        ensures
            doc@ == request_document(self@),
    {
        let mut fields: Vec<(String, Doc)> = Vec::new();
        fields.push(("body".to_owned(), self.body.duplicate()));
        let mut rest = duplicate_fields(&self.etc);
        fields.append(&mut rest);
        fields.push(("uri".to_owned(), Doc::Text(self.uri.clone())));
        proof {
            lemma_object_view(fields);
            assert(fields_view(fields@) =~= request_document(self@)->Object_0);
        }
        Doc::Object(fields)
    }

    /// A copy of the request.
    pub fn duplicate(&self) -> (r: Request)
        ensures
            r@ == self@,
    {
        Request {
            body: self.body.duplicate(),
            etc: duplicate_fields(&self.etc),
            uri: self.uri.clone(),
        }
    }
}

/// The response of an exchange: its status, what it carries, and any further
/// fields, which are kept as they are.
#[derive(Debug, PartialEq, Eq)]
pub struct Response {
    pub body: Doc,
    pub etc: Vec<(String, Doc)>,
    pub status: u32,
}

/// The mathematical value of a [`Response`].
pub struct ResponseView {
    pub body: DocView,
    pub etc: Seq<(Seq<char>, DocView)>,
    pub status: nat,
}

impl View for Response {
    type V = ResponseView;

    open spec fn view(&self) -> ResponseView {
        ResponseView { body: self.body@, etc: fields_view(self.etc@), status: self.status as nat }
    }
}

/// The status that a document gives: a whole number that fits 32 bits.
pub open spec fn decoded_status(doc: Option<DocView>) -> Option<nat> {
    match doc {
        Some(DocView::Number(text)) => match number_of(text) {
            Some(n) => if n <= u32::MAX {
                Some(n)
            } else {
                None
            },
            None => None,
        },
        _ => None,
    }
}

/// The response that a document describes: an object with a `body` and a
/// numeric `status`; its other fields are the response's further fields.
pub open spec fn decoded_response(doc: DocView) -> Option<ResponseView> {
    match doc {
        DocView::Object(fields) => match (
            field_of(fields, "body"@),
            decoded_status(field_of(fields, "status"@)),
        ) {
            (Some(body), Some(status)) => Some(
                ResponseView { body, etc: rest_of(fields, "body"@, "status"@), status },
            ),
            _ => None,
        },
        _ => None,
    }
}

/// The document of a response: `body`, the further fields at the same level,
/// then `status`.
pub open spec fn response_document(response: ResponseView) -> DocView {
    DocView::Object(
        seq![("body"@, response.body)] + response.etc + seq![
            ("status"@, DocView::Number(decimal(response.status))),
        ],
    )
}

impl Response {
    /// Reads a response from its document.
    pub fn from_document(doc: &Doc) -> (r: Result<Response, FrError>)
        ensures
            r matches Ok(response) ==> decoded_response(doc@) == Some(response@),
            r matches Err(e) ==> decoded_response(doc@) is None && e@ == Fault::Parse,
    {
        match doc {
            Doc::Object(fields) => {
                proof {
                    lemma_object_view(*fields);
                }
                let body = match find_field(fields, "body") {
                    Some(d) => d.duplicate(),
                    None => {
                        return Err(FrError::Parse);
                    },
                };
                let status = match find_field(fields, "status") {
                    Some(Doc::Number(text)) => match parse_u32(text.as_str()) {
                        Some(n) => n,
                        None => {
                            return Err(FrError::Parse);
                        },
                    },
                    _ => {
                        return Err(FrError::Parse);
                    },
                };
                Ok(Response { body, etc: other_fields(fields, "body", "status"), status })
            },
            _ => Err(FrError::Parse),
        }
    }

    /// Writes the response as a document.
    pub fn to_document(&self) -> (doc: Doc)
        ensures
            doc@ == response_document(self@),
    {
        let mut fields: Vec<(String, Doc)> = Vec::new();
        fields.push(("body".to_owned(), self.body.duplicate()));
        let mut rest = duplicate_fields(&self.etc);
        fields.append(&mut rest);
        fields.push(("status".to_owned(), Doc::Number(decimal_text(self.status as u64))));
        proof {
            lemma_object_view(fields);
            assert(fields_view(fields@) =~= response_document(self@)->Object_0);
        }
        Doc::Object(fields)
    }

    /// A copy of the response.
    pub fn duplicate(&self) -> (r: Response)
        ensures
            r@ == self@,
    {
        Response {
            body: self.body.duplicate(),
            etc: duplicate_fields(&self.etc),
            status: self.status,
        }
    }
}

/// The protocol that a document names.
pub open spec fn decoded_protocol(doc: DocView) -> Option<Protocol> {
    if doc == DocView::Text("GRPC"@) {
        Some(Protocol::GRPC)
    } else if doc == DocView::Text("HTTP"@) {
        Some(Protocol::HTTP)
    } else {
        None
    }
}

/// The document that names a protocol.
pub open spec fn protocol_document(protocol: Protocol) -> DocView {
    match protocol {
        Protocol::GRPC => DocView::Text("GRPC"@),
        Protocol::HTTP => DocView::Text("HTTP"@),
    }
}

impl Protocol {
    /// Reads a protocol from its name, `GRPC` or `HTTP`.
    pub fn from_document(doc: &Doc) -> (r: Result<Protocol, FrError>)
        ensures
            r matches Ok(protocol) ==> decoded_protocol(doc@) == Some(protocol),
            r matches Err(e) ==> decoded_protocol(doc@) is None && e@ == Fault::Parse,
    {
        match doc {
            Doc::Text(name) => {
                if same(name.as_str(), "GRPC") {
                    Ok(Protocol::GRPC)
                } else if same(name.as_str(), "HTTP") {
                    Ok(Protocol::HTTP)
                } else {
                    Err(FrError::Parse)
                }
            },
            _ => Err(FrError::Parse),
        }
    }

    /// Writes the protocol as its name.
    pub fn to_document(&self) -> (doc: Doc)
        ensures
            doc@ == protocol_document(*self),
    {
        match self {
            Protocol::GRPC => Doc::Text("GRPC".to_owned()),
            Protocol::HTTP => Doc::Text("HTTP".to_owned()),
        }
    }
}

/// The names that a run of text items holds, each as a pair without a value.
pub open spec fn name_entries(items: Seq<DocView>) -> Seq<(Seq<char>, ())> {
    Seq::new(items.len(), |i: int| (text_of(items[i]), ()))
}

/// The set of names that a document lists: those of an array of texts.
pub open spec fn decoded_reads(doc: DocView) -> Option<Set<Seq<char>>> {
    match doc {
        DocView::Array(items) => if forall|i: int|
            0 <= i < items.len() ==> (#[trigger] items[i]) is Text {
            Some(pairs_map(name_entries(items)).dom())
        } else {
            None
        },
        _ => None,
    }
}

/// The value of the one field that goes by `name` or by `alias`; nothing
/// where neither or both are there.
pub open spec fn aliased(
    fields: Seq<(Seq<char>, DocView)>,
    name: Seq<char>,
    alias: Seq<char>,
) -> Option<DocView> {
    match (field_of(fields, name), field_of(fields, alias)) {
        (Some(d), None) => Some(d),
        (None, Some(d)) => Some(d),
        _ => None,
    }
}

/// Finds the one field that goes by `name` or by `alias`.
fn find_aliased<'a>(fields: &'a Vec<(String, Doc)>, name: &str, alias: &str) -> (r: Option<
    &'a Doc,
>)
    ensures
        r matches Some(d) ==> aliased(fields_view(fields@), name@, alias@) == Some(d@),
        r is None ==> aliased(fields_view(fields@), name@, alias@) is None,
{
    match (find_field(fields, name), find_field(fields, alias)) {
        (Some(d), None) => Some(d),
        (None, Some(d)) => Some(d),
        _ => None,
    }
}

/// The mathematical value of an [`InstructionSet`].
pub struct InstructionView {
    pub reads: Set<Seq<char>>,
    pub writes: Map<Seq<char>, Seq<char>>,
}

/// The instructions that a document describes: an object with the names to
/// read under `reads` (or `from`) and the expressions to write by under
/// `writes` (or `to`).
pub open spec fn decoded_instructions(doc: DocView) -> Option<InstructionView> {
    match doc {
        DocView::Object(fields) => match (
            aliased(fields, "reads"@, "from"@),
            aliased(fields, "writes"@, "to"@),
        ) {
            (Some(r), Some(w)) => match (decoded_reads(r), decoded(w)) {
                (Some(reads), Some(writes)) => Some(InstructionView { reads, writes }),
                _ => None,
            },
            _ => None,
        },
        _ => None,
    }
}

/// `name` is the least of the names in `reads` that `vars` does not hold.
pub open spec fn is_least_missing(
    reads: Set<Seq<char>>,
    vars: Map<Seq<char>, Seq<char>>,
    name: Seq<char>,
) -> bool {
    &&& reads.contains(name)
    &&& !vars.contains_key(name)
    &&& forall|other: Seq<char>|
        reads.contains(other) && !vars.contains_key(other) ==> other == name
            || lex_less(name, other)
}

/// The variables that a frame reads from the register before its request is
/// built, and those that it writes from the response, each with the
/// expression that extracts its value.
#[derive(Debug, PartialEq, Eq)]
pub struct InstructionSet {
    reads: Ordered<()>,
    writes: Register,
}

impl View for InstructionSet {
    type V = InstructionView;

    open spec fn view(&self) -> InstructionView {
        InstructionView {
            reads: pairs_map(self.read_names()).dom(),
            writes: pairs_map(self.write_entries()),
        }
    }
}

impl Default for InstructionSet {
    /// Instructions that read nothing and write nothing.
    fn default() -> (r: Self)
        ensures
            r.well_formed(),
            r@.reads == Set::<Seq<char>>::empty(),
            r@.writes == Map::<Seq<char>, Seq<char>>::empty(),
    {
        InstructionSet::new()
    }
}

impl InstructionSet {
    /// The names to read, in ascending order.
    pub closed spec fn read_names(&self) -> Seq<(Seq<char>, ())> {
        self.reads.pairs()
    }

    /// The names to write, each with its expression, in ascending order.
    pub closed spec fn write_entries(&self) -> Seq<(Seq<char>, Seq<char>)> {
        self.writes.entries()
    }

    /// No name is read twice, none is written twice.
    pub open spec fn well_formed(&self) -> bool {
        ascending(self.read_names()) && ascending(self.write_entries())
    }

    /// The document that `to_document` gives.
    pub open spec fn document(&self) -> DocView {
        DocView::Object(
            seq![
                (
                    "reads"@,
                    DocView::Array(
                        Seq::new(
                            self.read_names().len(),
                            |i: int| DocView::Text(self.read_names()[i].0),
                        ),
                    ),
                ),
                ("writes"@, entries_document(self.write_entries())),
            ],
        )
    }

    /// Instructions that read nothing and write nothing.
    pub fn new() -> (r: Self)
        ensures
            r.well_formed(),
            r@.reads == Set::<Seq<char>>::empty(),
            r@.writes == Map::<Seq<char>, Seq<char>>::empty(),
    {
        let r = InstructionSet { reads: Ordered::new(), writes: Register::new() };
        proof {
            assert(r@.reads =~= Set::<Seq<char>>::empty());
        }
        r
    }

    /// Adds `name` to the variables that are read.
    pub fn read(&mut self, name: &str)
        requires
            old(self).well_formed(),
        ensures
            final(self).well_formed(),
            final(self)@.reads == old(self)@.reads.insert(name@),
            final(self)@.writes == old(self)@.writes,
    {
        self.reads.insert(name.to_owned(), ());
        proof {
            assert(self@.reads =~= old(self)@.reads.insert(name@));
        }
    }

    /// Has `name` written from what `expression` extracts.
    pub fn write(&mut self, name: &str, expression: &str)
        requires
            old(self).well_formed(),
        ensures
            final(self).well_formed(),
            final(self)@.reads == old(self)@.reads,
            final(self)@.writes == old(self)@.writes.insert(name@, expression@),
    {
        self.writes.insert(name, expression);
    }

    /// The names that are read, in ascending order.
    pub fn reads(&self) -> (names: Vec<String>)
        requires
            self.well_formed(),
        ensures
            names@.len() == self.read_names().len(),
            forall|i: int| 0 <= i < names@.len() ==> (#[trigger] names@[i])@ == self.read_names()[i].0,
    {
        let mut out: Vec<String> = Vec::new();
        let mut i: usize = 0;
        while i < self.reads.len()
            invariant
                i <= self.read_names().len(),
                out@.len() == i,
                forall|j: int| 0 <= j < i ==> (#[trigger] out@[j])@ == self.read_names()[j].0,
            decreases self.read_names().len() - i,
        {
            out.push(self.reads.key_at(i).clone());
            i += 1;
        }
        out
    }

    /// The names that are written, each with its expression.
    pub fn writes(&self) -> (r: &Register)
        ensures
            r.entries() == self.write_entries(),
            r@ == self@.writes,
    {
        &self.writes
    }

    /// A copy of the instructions.
    pub fn duplicate(&self) -> (r: InstructionSet)
        requires
            self.well_formed(),
        ensures
            r.well_formed(),
            r@ == self@,
            r.read_names() == self.read_names(),
            r.write_entries() == self.write_entries(),
    {
        let mut reads: Ordered<()> = Ordered::new();
        let mut i: usize = 0;
        let ghost names = self.read_names();
        proof {
            assert(names.take(0) =~= Seq::empty());
            assert(reads.map() =~= pairs_map(names.take(0)));
        }
        while i < self.reads.len()
            invariant
                i <= names.len(),
                names == self.read_names(),
                reads.well_formed(),
                reads.map() == pairs_map(names.take(i as int)),
            decreases names.len() - i,
        {
            reads.insert(self.reads.key_at(i).clone(), *self.reads.value_at(i));
            proof {
                assert(names.take(i + 1) =~= names.take(i as int).push(
                    (names[i as int].0, names[i as int].1),
                ));
                lemma_pairs_map_push(
                    names.take(i as int),
                    names[i as int].0,
                    names[i as int].1,
                );
            }
            i += 1;
        }
        proof {
            assert(names.take(i as int) =~= names);
            lemma_ascending_unique(reads.pairs(), names);
        }
        let r = InstructionSet { reads, writes: self.writes.duplicate() };
        proof {
            assert(r@.reads =~= self@.reads);
            assert(r@.writes =~= self@.writes);
        }
        r
    }

    /// Checks that the register holds every variable that is read. Fails
    /// with the least name that it does not hold.
    pub fn check_reads(&self, register: &Register) -> (r: Result<(), FrError>)
        requires
            self.well_formed(),
            register.well_formed(),
        ensures
            r is Ok <==> self@.reads.subset_of(register@.dom()),
            r matches Err(e) ==> e matches FrError::MissingVariable(name) && is_least_missing(
                self@.reads,
                register@,
                name@,
            ),
    {
        let ghost names = self.read_names();
        let ghost vars = register@;
        let mut i: usize = 0;
        while i < self.reads.len()
            invariant
                i <= names.len(),
                names == self.read_names(),
                vars == register@,
                register.well_formed(),
                self.well_formed(),
                forall|j: int| 0 <= j < i ==> vars.contains_key((#[trigger] names[j]).0),
            decreases names.len() - i,
        {
            let name = self.reads.key_at(i);
            if !register.contains_key(name.as_str()) {
                proof {
                    lemma_lookup_present(names, i as int);
                    assert forall|other: Seq<char>|
                        self@.reads.contains(other) && !vars.contains_key(other) implies other
                        == name@ || lex_less(name@, other) by {
                        let k = lemma_lookup_found(names, other);
                        if k < i {
                            assert(vars.contains_key(names[k].0));
                        } else if k > i {
                            assert(lex_less(names[i as int].0, names[k].0));
                        }
                    }
                }
                return Err(FrError::MissingVariable(name.clone()));
            }
            i += 1;
        }
        proof {
            assert forall|other: Seq<char>| self@.reads.contains(other) implies register@.dom().contains(
                other,
            ) by {
                let k = lemma_lookup_found(names, other);
                assert(vars.contains_key(names[k].0));
            }
        }
        Ok(())
    }

    /// Reads the instructions from their document.
    pub fn from_document(doc: &Doc) -> (r: Result<InstructionSet, FrError>)
        ensures
            r matches Ok(set) ==> set.well_formed() && decoded_instructions(doc@) == Some(set@),
            r matches Err(e) ==> decoded_instructions(doc@) is None && e@ == Fault::Parse,
    {
        match doc {
            Doc::Object(fields) => {
                proof {
                    lemma_object_view(*fields);
                }
                let names = match find_aliased(fields, "reads", "from") {
                    Some(Doc::Array(items)) => items,
                    _ => {
                        return Err(FrError::Parse);
                    },
                };
                let bindings = match find_aliased(fields, "writes", "to") {
                    Some(d) => d,
                    None => {
                        return Err(FrError::Parse);
                    },
                };
                proof {
                    lemma_array_view(*names);
                }
                let ghost views = items_view(names@);
                let ghost listed = name_entries(views);
                let mut reads: Ordered<()> = Ordered::new();
                let mut i: usize = 0;
                proof {
                    assert(listed.take(0) =~= Seq::empty());
                    assert(reads.map() =~= pairs_map(listed.take(0)));
                }
                while i < names.len()
                    invariant
                        i <= names.len(),
                        views == items_view(names@),
                        listed == name_entries(views),
                        reads.well_formed(),
                        forall|j: int| 0 <= j < i ==> (#[trigger] views[j]) is Text,
                        reads.map() == pairs_map(listed.take(i as int)),
                        aliased(fields_view(fields@), "reads"@, "from"@) == Some(
                            DocView::Array(views),
                        ),
                        doc@ == DocView::Object(fields_view(fields@)),
                    decreases names.len() - i,
                {
                    match &names[i] {
                        Doc::Text(name) => {
                            reads.insert(name.clone(), ());
                            proof {
                                assert(listed.take(i + 1) =~= listed.take(i as int).push(
                                    (name@, ()),
                                ));
                                lemma_pairs_map_push(listed.take(i as int), name@, ());
                            }
                        },
                        _ => {
                            proof {
                                assert(!(views[i as int] is Text));
                            }
                            return Err(FrError::Parse);
                        },
                    }
                    i += 1;
                }
                proof {
                    assert(listed.take(i as int) =~= listed);
                }
                let writes = match Register::from_document(bindings) {
                    Ok(w) => w,
                    Err(e) => {
                        return Err(e);
                    },
                };
                let set = InstructionSet { reads, writes };
                proof {
                    assert(set@.reads =~= pairs_map(listed).dom());
                }
                Ok(set)
            },
            _ => Err(FrError::Parse),
        }
    }

    /// Writes the instructions as a document, under `reads` and `writes`.
    pub fn to_document(&self) -> (doc: Doc)
        requires
            self.well_formed(),
        ensures
            doc@ == self.document(),
    {
        let mut names: Vec<Doc> = Vec::new();
        let mut i: usize = 0;
        while i < self.reads.len()
            invariant
                i <= self.read_names().len(),
                names@.len() == i,
                forall|j: int|
                    0 <= j < i ==> (#[trigger] names@[j])@ == DocView::Text(self.read_names()[j].0),
            decreases self.read_names().len() - i,
        {
            names.push(Doc::Text(self.reads.key_at(i).clone()));
            i += 1;
        }
        proof {
            lemma_array_view(names);
            assert(items_view(names@) =~= Seq::new(
                self.read_names().len(),
                |i: int| DocView::Text(self.read_names()[i].0),
            ));
        }
        let mut fields: Vec<(String, Doc)> = Vec::new();
        fields.push(("reads".to_owned(), Doc::Array(names)));
        fields.push(("writes".to_owned(), self.writes.serialize()));
        proof {
            lemma_object_view(fields);
            assert(fields_view(fields@) =~= self.document()->Object_0);
        }
        Doc::Object(fields)
    }
}

/// One scripted exchange: the protocol, the request template, the expected
/// response, and the variables that the exchange reads and writes.
#[derive(Debug, PartialEq, Eq)]
pub struct Frame {
    pub protocol: Protocol,
    pub cut: InstructionSet,
    pub request: Request,
    pub response: Response,
}

/// The mathematical value of a [`Frame`].
pub struct FrameView {
    pub protocol: Protocol,
    pub cut: InstructionView,
    pub request: RequestView,
    pub response: ResponseView,
}

impl View for Frame {
    type V = FrameView;

    open spec fn view(&self) -> FrameView {
        FrameView {
            protocol: self.protocol,
            cut: self.cut@,
            request: self.request@,
            response: self.response@,
        }
    }
}

/// What a field holds, read by `read`; nothing where the field is missing.
pub open spec fn decoded_field<T>(
    fields: Seq<(Seq<char>, DocView)>,
    name: Seq<char>,
    read: spec_fn(DocView) -> Option<T>,
) -> Option<T> {
    match field_of(fields, name) {
        Some(d) => read(d),
        None => None,
    }
}

/// The frame that a document describes: an object with `protocol`, `cut`,
/// `request` and `response`, each of its own form.
pub open spec fn decoded_frame(doc: DocView) -> Option<FrameView> {
    match doc {
        DocView::Object(fields) => match (
            decoded_field(fields, "protocol"@, |d: DocView| decoded_protocol(d)),
            decoded_field(fields, "cut"@, |d: DocView| decoded_instructions(d)),
            decoded_field(fields, "request"@, |d: DocView| decoded_request(d)),
            decoded_field(fields, "response"@, |d: DocView| decoded_response(d)),
        ) {
            (Some(protocol), Some(cut), Some(request), Some(response)) => Some(
                FrameView { protocol, cut, request, response },
            ),
            _ => None,
        },
        _ => None,
    }
}

impl Frame {
    /// The frame's instructions are well formed.
    pub open spec fn well_formed(&self) -> bool {
        self.cut.well_formed()
    }

    /// The document that `to_document` gives.
    pub open spec fn document(&self) -> DocView {
        DocView::Object(
            seq![
                ("protocol"@, protocol_document(self.protocol)),
                ("cut"@, self.cut.document()),
                ("request"@, request_document(self.request@)),
                ("response"@, response_document(self.response@)),
            ],
        )
    }

    /// Reads a frame from its document.
    pub fn from_document(doc: &Doc) -> (r: Result<Frame, FrError>)
        ensures
            r matches Ok(frame) ==> frame.well_formed() && decoded_frame(doc@) == Some(frame@),
            r matches Err(e) ==> decoded_frame(doc@) is None && e@ == Fault::Parse,
    {
        match doc {
            Doc::Object(fields) => {
                proof {
                    lemma_object_view(*fields);
                }
                let protocol = match find_field(fields, "protocol") {
                    Some(d) => match Protocol::from_document(d) {
                        Ok(p) => p,
                        Err(e) => {
                            return Err(e);
                        },
                    },
                    None => {
                        return Err(FrError::Parse);
                    },
                };
                let cut = match find_field(fields, "cut") {
                    Some(d) => match InstructionSet::from_document(d) {
                        Ok(c) => c,
                        Err(e) => {
                            return Err(e);
                        },
                    },
                    None => {
                        return Err(FrError::Parse);
                    },
                };
                let request = match find_field(fields, "request") {
                    Some(d) => match Request::from_document(d) {
                        Ok(q) => q,
                        Err(e) => {
                            return Err(e);
                        },
                    },
                    None => {
                        return Err(FrError::Parse);
                    },
                };
                let response = match find_field(fields, "response") {
                    Some(d) => match Response::from_document(d) {
                        Ok(p) => p,
                        Err(e) => {
                            return Err(e);
                        },
                    },
                    None => {
                        return Err(FrError::Parse);
                    },
                };
                Ok(Frame { protocol, cut, request, response })
            },
            _ => Err(FrError::Parse),
        }
    }

    /// Writes the frame as a document.
    pub fn to_document(&self) -> (doc: Doc)
        requires
            self.well_formed(),
        ensures
            doc@ == self.document(),
    {
        let mut fields: Vec<(String, Doc)> = Vec::new();
        fields.push(("protocol".to_owned(), self.protocol.to_document()));
        fields.push(("cut".to_owned(), self.cut.to_document()));
        fields.push(("request".to_owned(), self.request.to_document()));
        fields.push(("response".to_owned(), self.response.to_document()));
        proof {
            lemma_object_view(fields);
            assert(fields_view(fields@) =~= self.document()->Object_0);
        }
        Doc::Object(fields)
    }

    /// A copy of the frame.
    pub fn duplicate(&self) -> (r: Frame)
        requires
            self.well_formed(),
        ensures
            r.well_formed(),
            r@ == self@,
    {
        Frame {
            protocol: self.protocol,
            cut: self.cut.duplicate(),
            request: self.request.duplicate(),
            response: self.response.duplicate(),
        }
    }
}

/// A name that no field carries has no value.
proof fn lemma_field_absent(fields: Seq<(Seq<char>, DocView)>, key: Seq<char>)
    requires
        forall|i: int| 0 <= i < fields.len() ==> (#[trigger] fields[i]).0 != key,
    ensures
        field_of(fields, key) is None,
    decreases fields.len(),
{
    if fields.len() > 0 {
        assert forall|i: int| 0 <= i < fields.drop_first().len() implies (
        #[trigger] fields.drop_first()[i]).0 != key by {
            assert(fields.drop_first()[i] == fields[i + 1]);
        }
        lemma_field_absent(fields.drop_first(), key);
    }
}

/// Looking a name up in two runs of fields, one after the other, looks in
/// the first and then in the second.
proof fn lemma_field_of_both(
    first: Seq<(Seq<char>, DocView)>,
    second: Seq<(Seq<char>, DocView)>,
    key: Seq<char>,
)
    ensures
        field_of(first + second, key) == match field_of(first, key) {
            Some(d) => Some(d),
            None => field_of(second, key),
        },
    decreases first.len(),
{
    if first.len() == 0 {
        assert(first + second =~= second);
    } else {
        assert((first + second).drop_first() =~= first.drop_first() + second);
        lemma_field_of_both(first.drop_first(), second, key);
    }
}

/// The rest of two runs of fields, one after the other, is the rest of the
/// first and then the rest of the second.
proof fn lemma_rest_of_both(
    first: Seq<(Seq<char>, DocView)>,
    second: Seq<(Seq<char>, DocView)>,
    a: Seq<char>,
    b: Seq<char>,
)
    ensures
        rest_of(first + second, a, b) == rest_of(first, a, b) + rest_of(second, a, b),
    decreases second.len(),
{
    if second.len() == 0 {
        assert(first + second =~= first);
        assert(rest_of(first, a, b) + rest_of(second, a, b) =~= rest_of(first, a, b));
    } else {
        assert((first + second).drop_last() =~= first + second.drop_last());
        lemma_rest_of_both(first, second.drop_last(), a, b);
        if second.last().0 != a && second.last().0 != b {
            assert(rest_of(first, a, b) + rest_of(second.drop_last(), a, b).push(second.last())
                =~= (rest_of(first, a, b) + rest_of(second.drop_last(), a, b)).push(
                second.last(),
            ));
        }
    }
}

/// Fields of which none is named `a` or `b` are all the rest.
proof fn lemma_rest_of_all(fields: Seq<(Seq<char>, DocView)>, a: Seq<char>, b: Seq<char>)
    requires
        forall|i: int|
            0 <= i < fields.len() ==> (#[trigger] fields[i]).0 != a && fields[i].0 != b,
    ensures
        rest_of(fields, a, b) == fields,
    decreases fields.len(),
{
    if fields.len() > 0 {
        assert forall|i: int| 0 <= i < fields.drop_last().len() implies (
        #[trigger] fields.drop_last()[i]).0 != a && fields.drop_last()[i].0 != b by {
            assert(fields.drop_last()[i] == fields[i]);
        }
        lemma_rest_of_all(fields.drop_last(), a, b);
        assert(fields.last() == fields[fields.len() - 1]);
        assert(fields.drop_last().push(fields.last()) =~= fields);
    } else {
        assert(fields =~= Seq::empty());
    }
}

/// None of the fields goes by one of the two names.
pub open spec fn neither_named(fields: Seq<(Seq<char>, DocView)>, a: Seq<char>, b: Seq<char>) -> bool {
    forall|i: int| 0 <= i < fields.len() ==> (#[trigger] fields[i]).0 != a && fields[i].0 != b
}

/// What is read from two named fields with further fields between them.
proof fn lemma_framed_fields(
    first: (Seq<char>, DocView),
    etc: Seq<(Seq<char>, DocView)>,
    last: (Seq<char>, DocView),
)
    requires
        first.0 != last.0,
        neither_named(etc, first.0, last.0),
    ensures
        field_of(seq![first] + etc + seq![last], first.0) == Some(first.1),
        field_of(seq![first] + etc + seq![last], last.0) == Some(last.1),
        rest_of(seq![first] + etc + seq![last], first.0, last.0) == etc,
{
    let all = seq![first] + etc + seq![last];
    let head = seq![first];
    let tail = seq![last];
    assert(all.drop_first() =~= etc + tail);
    lemma_field_of_both(etc, tail, last.0);
    lemma_field_absent(etc, last.0);
    assert(tail.drop_first() =~= Seq::empty());
    assert(field_of(tail, last.0) == Some(last.1));
    lemma_rest_of_both(head + etc, tail, first.0, last.0);
    lemma_rest_of_both(head, etc, first.0, last.0);
    lemma_rest_of_all(etc, first.0, last.0);
    assert(head.drop_last() =~= Seq::empty());
    assert(tail.drop_last() =~= Seq::empty());
    assert(rest_of(head.drop_last(), first.0, last.0) =~= Seq::empty());
    assert(rest_of(tail.drop_last(), first.0, last.0) =~= Seq::empty());
    assert(head.last() == first);
    assert(tail.last() == last);
    assert(rest_of(head, first.0, last.0) =~= Seq::empty());
    assert(rest_of(tail, first.0, last.0) =~= Seq::empty());
    assert(Seq::<(Seq<char>, DocView)>::empty() + etc + Seq::<(Seq<char>, DocView)>::empty()
        =~= etc);
}

/// A request is read back from its document as it was, further fields
/// included, provided that none of them is named like `body` or `uri`.
pub proof fn law_request_read_back(request: RequestView)
    requires
        neither_named(request.etc, "body"@, "uri"@),
    ensures
        decoded_request(request_document(request)) == Some(request),
{
    reveal_strlit("body");
    reveal_strlit("uri");
    assert("body"@.len() != "uri"@.len());
    lemma_framed_fields(("body"@, request.body), request.etc, ("uri"@, DocView::Text(request.uri)));
}

/// A response is read back from its document as it was, further fields
/// included, provided that none of them is named like `body` or `status`.
pub proof fn law_response_read_back(response: ResponseView)
    requires
        response.status <= u32::MAX,
        neither_named(response.etc, "body"@, "status"@),
    ensures
        decoded_response(response_document(response)) == Some(response),
{
    reveal_strlit("body");
    reveal_strlit("status");
    assert("body"@.len() != "status"@.len());
    lemma_decimal_read_back(response.status);
    lemma_framed_fields(
        ("body"@, response.body),
        response.etc,
        ("status"@, DocView::Number(decimal(response.status))),
    );
}

/// A protocol is read back from its document.
pub proof fn law_protocol_read_back(protocol: Protocol)
    ensures
        decoded_protocol(protocol_document(protocol)) == Some(protocol),
{
    reveal_strlit("GRPC");
    reveal_strlit("HTTP");
    assert("GRPC"@[0] != "HTTP"@[0]);
}

/// Instructions are read back from their document: the same names are
/// read, the same names are written by the same expressions.
pub proof fn law_instructions_read_back(set: InstructionSet)
    ensures
        decoded_instructions(set.document()) == Some(set@),
{
    reveal_strlit("reads");
    reveal_strlit("from");
    reveal_strlit("writes");
    reveal_strlit("to");
    assert("reads"@.len() != "from"@.len() && "reads"@.len() != "writes"@.len() && "reads"@.len()
        != "to"@.len());
    assert("writes"@.len() != "from"@.len() && "writes"@.len() != "to"@.len());
    let names = set.read_names();
    let items = Seq::new(names.len(), |i: int| DocView::Text(names[i].0));
    let written = entries_document(set.write_entries());
    let fields = set.document()->Object_0;
    assert(fields =~= seq![("reads"@, DocView::Array(items)), ("writes"@, written)]);
    assert(fields.drop_first() =~= seq![("writes"@, written)]);
    assert(fields.drop_first().drop_first() =~= Seq::empty());
    assert(field_of(fields.drop_first().drop_first(), "from"@) is None);
    assert(field_of(fields.drop_first().drop_first(), "to"@) is None);
    assert(field_of(fields.drop_first(), "from"@) is None);
    assert(field_of(fields.drop_first(), "to"@) is None);
    assert(field_of(fields.drop_first(), "writes"@) == Some(written));
    assert(field_of(fields, "reads"@) == Some(DocView::Array(items)));
    assert(field_of(fields, "writes"@) == Some(written));
    assert(field_of(fields, "from"@) is None);
    assert(field_of(fields, "to"@) is None);
    lemma_same_keys(name_entries(items), names);
    law_read_back(set.writes);
}

/// The four fields of a frame's document are found under their names.
proof fn lemma_frame_fields(
    protocol: DocView,
    cut: DocView,
    request: DocView,
    response: DocView,
)
    ensures
        ({
            let fields = seq![
                ("protocol"@, protocol),
                ("cut"@, cut),
                ("request"@, request),
                ("response"@, response),
            ];
            &&& field_of(fields, "protocol"@) == Some(protocol)
            &&& field_of(fields, "cut"@) == Some(cut)
            &&& field_of(fields, "request"@) == Some(request)
            &&& field_of(fields, "response"@) == Some(response)
        }),
{
    reveal_strlit("protocol");
    reveal_strlit("cut");
    reveal_strlit("request");
    reveal_strlit("response");
    assert("protocol"@.len() != "cut"@.len() && "protocol"@.len() != "request"@.len());
    assert("protocol"@[0] != "response"@[0]);
    assert("cut"@.len() != "request"@.len() && "cut"@.len() != "response"@.len());
    assert("request"@.len() != "response"@.len());
    let fields = seq![
        ("protocol"@, protocol),
        ("cut"@, cut),
        ("request"@, request),
        ("response"@, response),
    ];
    let one = fields.drop_first();
    let two = one.drop_first();
    let three = two.drop_first();
    assert(one =~= seq![("cut"@, cut), ("request"@, request), ("response"@, response)]);
    assert(two =~= seq![("request"@, request), ("response"@, response)]);
    assert(three =~= seq![("response"@, response)]);
    assert(field_of(three, "response"@) == Some(response));
    assert(field_of(two, "response"@) == Some(response));
    assert(field_of(two, "request"@) == Some(request));
    assert(field_of(one, "response"@) == Some(response));
    assert(field_of(one, "request"@) == Some(request));
    assert(field_of(one, "cut"@) == Some(cut));
}

/// A frame is read back from its document as it was, provided that no
/// further field of its request or of its response is named like one of the
/// fields that have a name of their own.
pub proof fn law_frame_read_back(frame: Frame)
    requires
        neither_named(frame@.request.etc, "body"@, "uri"@),
        neither_named(frame@.response.etc, "body"@, "status"@),
    ensures
        decoded_frame(frame.document()) == Some(frame@),
{
    law_protocol_read_back(frame.protocol);
    law_instructions_read_back(frame.cut);
    law_request_read_back(frame@.request);
    law_response_read_back(frame@.response);
    lemma_frame_fields(
        protocol_document(frame.protocol),
        frame.cut.document(),
        request_document(frame.request@),
        response_document(frame.response@),
    );
}

} // verus!
