//! The cut register: the variables that the frames of a reel share.

use vstd::prelude::*;
use crate::document::{fields_view, lemma_object_view, Doc, DocView};
use crate::error::{Fault, FrError};
use crate::ordered::{
    ascending, lemma_ascending_unique, lemma_pairs_map_push, lookup, pairs_map, Ordered,
};
use crate::text::lex_less;

verus! {

/// The pairs of a register's store, each value by its characters.
pub open spec fn entries_of(pairs: Seq<(Seq<char>, String)>) -> Seq<(Seq<char>, Seq<char>)> {
    Seq::new(pairs.len(), |i: int| (pairs[i].0, pairs[i].1@))
}

/// The flat object that holds one text field for each pair, in their order.
pub open spec fn entries_document(entries: Seq<(Seq<char>, Seq<char>)>) -> DocView {
    DocView::Object(Seq::new(entries.len(), |i: int| (entries[i].0, DocView::Text(entries[i].1))))
}

/// The text of a text leaf; of anything else, nothing.
pub open spec fn text_of(doc: DocView) -> Seq<char> {
    match doc {
        DocView::Text(s) => s,
        _ => Seq::empty(),
    }
}

/// The pairs that a run of text fields holds, in their order.
pub open spec fn text_entries(fields: Seq<(Seq<char>, DocView)>) -> Seq<(Seq<char>, Seq<char>)> {
    Seq::new(fields.len(), |i: int| (fields[i].0, text_of(fields[i].1)))
}

/// Every field is a text leaf.
pub open spec fn all_text(fields: Seq<(Seq<char>, DocView)>) -> bool {
    forall|i: int| 0 <= i < fields.len() ==> (#[trigger] fields[i]).1 is Text
}

/// The variables that a document declares: those of a flat object of text
/// fields, a later field overriding an earlier one of the same name.
/// Any other document declares nothing.
pub open spec fn decoded(doc: DocView) -> Option<Map<Seq<char>, Seq<char>>> {
    match doc {
        DocView::Object(fields) => if all_text(fields) {
            Some(pairs_map(text_entries(fields)))
        } else {
            None
        },
        _ => None,
    }
}

/// The union of two stores in which, where both hold a name, the second's
/// value stands.
pub open spec fn merged(
    first: Map<Seq<char>, Seq<char>>,
    second: Map<Seq<char>, Seq<char>>,
) -> Map<Seq<char>, Seq<char>> {
    first.union_prefer_right(second)
}

/// The value of a key among a store's pairs, by its characters.
proof fn lemma_lookup_entries(pairs: Seq<(Seq<char>, String)>, key: Seq<char>)
    ensures
        lookup(entries_of(pairs), key) == match lookup(pairs, key) {
            Some(s) => Some(s@),
            None => None,
        },
    decreases pairs.len(),
{
    if pairs.len() > 0 {
        assert(entries_of(pairs).drop_last() =~= entries_of(pairs.drop_last()));
        lemma_lookup_entries(pairs.drop_last(), key);
    }
}

/// Holds cut variables and their values as pairs of a name and a text.
#[derive(Debug, PartialEq, Eq)]
pub struct Register {
    vars: Ordered<String>,
}

impl View for Register {
    type V = Map<Seq<char>, Seq<char>>;

    /// The store: each name with its value.
    open spec fn view(&self) -> Map<Seq<char>, Seq<char>> {
        pairs_map(self.entries())
    }
}

impl Default for Register {
    /// The empty register.
    fn default() -> (r: Self)
        ensures
            r.well_formed(),
            r@ == Map::<Seq<char>, Seq<char>>::empty(),
    {
        Register::new()
    }
}

impl Register {
    /// The pairs in the order in which the register yields them.
    pub closed spec fn entries(&self) -> Seq<(Seq<char>, Seq<char>)> {
        entries_of(self.vars.pairs())
    }

    /// The names stand in strictly ascending order; none occurs twice.
    pub open spec fn well_formed(&self) -> bool {
        ascending(self.entries())
    }

    /// The document that `serialize` gives.
    pub open spec fn serialized(&self) -> DocView {
        entries_document(self.entries())
    }

    /// The register and its store agree: on being well formed, on the names
    /// that have a value, and on each value.
    proof fn lemma_store(&self)
        ensures
            self.well_formed() == self.vars.well_formed(),
            forall|k: Seq<char>|
                #![trigger self@.contains_key(k)]
                #![trigger lookup(self.vars.pairs(), k)]
                self@.contains_key(k) == (lookup(self.vars.pairs(), k) is Some) && (
                self@.contains_key(k) ==> self@[k] == lookup(self.vars.pairs(), k).unwrap()@),
    {
        let pairs = self.vars.pairs();
        let entries = self.entries();
        assert(entries.len() == pairs.len());
        if self.vars.well_formed() {
            assert forall|i: int, j: int| 0 <= i < j < entries.len() implies lex_less(
                (#[trigger] entries[i]).0,
                (#[trigger] entries[j]).0,
            ) by {
                assert(lex_less(pairs[i].0, pairs[j].0));
            }
        }
        if self.well_formed() {
            assert forall|i: int, j: int| 0 <= i < j < pairs.len() implies lex_less(
                (#[trigger] pairs[i]).0,
                (#[trigger] pairs[j]).0,
            ) by {
                assert(lex_less(entries[i].0, entries[j].0));
            }
        }
        assert forall|k: Seq<char>|
            #![trigger self@.contains_key(k)]
            #![trigger lookup(self.vars.pairs(), k)]
            self@.contains_key(k) == (lookup(self.vars.pairs(), k) is Some) && (
            self@.contains_key(k) ==> self@[k] == lookup(self.vars.pairs(), k).unwrap()@) by {
            lemma_lookup_entries(pairs, k);
        }
    }

    /// The empty register.
    pub fn new() -> (r: Self)
        ensures
            r.well_formed(),
            r@ == Map::<Seq<char>, Seq<char>>::empty(),
    {
        let r = Register { vars: Ordered::new() };
        proof {
            assert(r.entries() =~= Seq::empty());
            assert(r@ =~= Map::<Seq<char>, Seq<char>>::empty());
        }
        r
    }

    /// Gives `key` the value `val`; returns the value that it had before.
    pub fn insert(&mut self, key: &str, val: &str) -> (previous: Option<String>)
        requires
            old(self).well_formed(),
        ensures
            final(self).well_formed(),
            final(self)@ == old(self)@.insert(key@, val@),
            previous matches Some(p) ==> old(self)@.contains_key(key@) && old(self)@[key@] == p@,
            previous is None ==> !old(self)@.contains_key(key@),
    {
        proof {
            self.lemma_store();
        }
        let ghost before = *self;
        let owned = val.to_owned();
        let previous = self.vars.insert(key.to_owned(), owned);
        proof {
            self.lemma_store();
            assert forall|k: Seq<char>| #[trigger]
                self@.contains_key(k) == before@.insert(key@, val@).contains_key(k) && (
                self@.contains_key(k) ==> self@[k] == before@.insert(key@, val@)[k]) by {
                assert(self.vars.map().contains_key(k) == before.vars.map().insert(
                    key@,
                    owned,
                ).contains_key(k));
                if self.vars.map().contains_key(k) {
                    assert(self.vars.map()[k] == before.vars.map().insert(key@, owned)[k]);
                }
            }
            assert(self@ =~= before@.insert(key@, val@));
        }
        previous
    }

    /// The value of `key`, if it has one.
    pub fn get(&self, key: &str) -> (r: Option<&String>)
        requires
            self.well_formed(),
        ensures
            r matches Some(v) ==> self@.contains_key(key@) && self@[key@] == v@,
            r is None ==> !self@.contains_key(key@),
    {
        proof {
            self.lemma_store();
        }
        self.vars.get(key)
    }

    /// Whether `key` has a value.
    pub fn contains_key(&self, key: &str) -> (r: bool)
        requires
            self.well_formed(),
        ensures
            r == self@.contains_key(key@),
    {
        self.get(key).is_some()
    }

    /// The number of variables.
    pub fn len(&self) -> (n: usize)
        ensures
            n == self.entries().len(),
    {
        self.vars.len()
    }

    /// All pairs, in ascending order of their names; every call yields the
    /// same run.
    pub fn iter(&self) -> (pairs: Vec<(String, String)>)
        requires
            self.well_formed(),
        ensures
            pairs@.len() == self.entries().len(),
            forall|i: int|
                0 <= i < pairs@.len() ==> (#[trigger] pairs@[i]).0@ == self.entries()[i].0
                    && pairs@[i].1@ == self.entries()[i].1,
            ascending(self.entries()),
            pairs_map(self.entries()) == self@,
    {
        let mut out: Vec<(String, String)> = Vec::new();
        let mut i: usize = 0;
        while i < self.vars.len()
            invariant
                i <= self.vars.pairs().len(),
                out@.len() == i,
                forall|j: int|
                    0 <= j < i ==> (#[trigger] out@[j]).0@ == self.entries()[j].0 && out@[j].1@
                        == self.entries()[j].1,
            decreases self.vars.pairs().len() - i,
        {
            out.push((self.vars.key_at(i).clone(), self.vars.value_at(i).clone()));
            i += 1;
        }
        out
    }

    /// A copy of the register.
    pub fn duplicate(&self) -> (r: Register)
        requires
            self.well_formed(),
        ensures
            r.well_formed(),
            r@ == self@,
            r.entries() == self.entries(),
    {
        let mut out = Register::new();
        out.merge(self);
        proof {
            assert(out@ =~= self@);
            lemma_ascending_unique(out.entries(), self.entries());
        }
        out
    }

    /// Takes over every pair of `other`: where both hold a name, `other`'s
    /// value stands afterwards.
    pub fn merge(&mut self, other: &Register)
        requires
            old(self).well_formed(),
            other.well_formed(),
        ensures
            final(self).well_formed(),
            final(self)@ == merged(old(self)@, other@),
    {
        let ghost before = self@;
        let ghost theirs = other.entries();
        let mut i: usize = 0;
        proof {
            assert(theirs.take(0) =~= Seq::empty());
            assert(self@ =~= merged(before, pairs_map(theirs.take(0))));
        }
        while i < other.vars.len()
            invariant
                i <= theirs.len(),
                theirs == other.entries(),
                theirs.len() == other.vars.pairs().len(),
                self.well_formed(),
                self@ == merged(before, pairs_map(theirs.take(i as int))),
            decreases theirs.len() - i,
        {
            let key = other.vars.key_at(i);
            let value = other.vars.value_at(i);
            self.insert(key.as_str(), value.as_str());
            proof {
                let shorter = theirs.take(i as int);
                assert(theirs.take(i + 1) =~= shorter.push((key@, value@)));
                lemma_pairs_map_push(shorter, key@, value@);
                assert(self@ =~= merged(before, pairs_map(theirs.take(i + 1))));
            }
            i += 1;
        }
        proof {
            assert(theirs.take(theirs.len() as int) =~= theirs);
        }
    }

    /// Reads a register from a document: a flat object whose values are all
    /// texts. Anything else is refused.
    pub fn from_document(doc: &Doc) -> (r: Result<Register, FrError>)
        ensures
            match r {
                Ok(register) => register.well_formed() && decoded(doc@) == Some(register@),
                Err(e) => e@ == Fault::Parse && decoded(doc@) is None,
            },
    {
        match doc {
            Doc::Object(fields) => {
                proof {
                    lemma_object_view(*fields);
                }
                let ghost all = fields_view(fields@);
                let mut out = Register::new();
                let mut i: usize = 0;
                proof {
                    assert(text_entries(all).take(0) =~= Seq::empty());
                    assert(out@ =~= pairs_map(text_entries(all).take(0)));
                }
                while i < fields.len()
                    invariant
                        i <= fields.len(),
                        all == fields_view(fields@),
                        doc@ == DocView::Object(all),
                        out.well_formed(),
                        forall|j: int| 0 <= j < i ==> (#[trigger] all[j]).1 is Text,
                        out@ == pairs_map(text_entries(all).take(i as int)),
                    decreases fields.len() - i,
                {
                    match &fields[i].1 {
                        Doc::Text(value) => {
                            out.insert(fields[i].0.as_str(), value.as_str());
                            proof {
                                let sofar = text_entries(all).take(i as int);
                                assert(all[i as int].1 == DocView::Text(value@));
                                assert(text_entries(all).take(i + 1) =~= sofar.push(
                                    (fields[i as int].0@, value@),
                                ));
                                lemma_pairs_map_push(sofar, fields[i as int].0@, value@);
                            }
                        },
                        _ => {
                            proof {
                                assert(!(all[i as int].1 is Text));
                            }
                            return Err(FrError::Parse);
                        },
                    }
                    i += 1;
                }
                proof {
                    assert(text_entries(all).take(i as int) =~= text_entries(all));
                }
                Ok(out)
            },
            _ => Err(FrError::Parse),
        }
    }

    /// Writes the register as a flat object of text fields, in ascending
    /// order of the names.
    pub fn serialize(&self) -> (doc: Doc)
        requires
            self.well_formed(),
        ensures
            doc@ == self.serialized(),
    {
        let mut fields: Vec<(String, Doc)> = Vec::new();
        let mut i: usize = 0;
        while i < self.vars.len()
            invariant
                i <= self.vars.pairs().len(),
                fields@.len() == i,
                forall|j: int|
                    0 <= j < i ==> (#[trigger] fields@[j]).0@ == self.entries()[j].0 && fields@[j].1@
                        == DocView::Text(self.entries()[j].1),
            decreases self.vars.pairs().len() - i,
        {
            fields.push((self.vars.key_at(i).clone(), Doc::Text(self.vars.value_at(i).clone())));
            i += 1;
        }
        proof {
            lemma_object_view(fields);
            assert(fields_view(fields@) =~= self.serialized()->Object_0);
        }
        Doc::Object(fields)
    }
}

/// A register that is written out and read back holds what it held.
pub proof fn law_read_back(r: Register)
    ensures
        decoded(r.serialized()) == Some(r@),
{
    let entries = r.entries();
    let fields = r.serialized()->Object_0;
    assert(all_text(fields));
    assert(text_entries(fields) =~= entries);
}

/// Two registers that hold the same variables are written out alike,
/// however each one came to hold them.
pub proof fn law_serialize_canonical(a: Register, b: Register)
    requires
        a.well_formed(),
        b.well_formed(),
        a@ == b@,
    ensures
        a.serialized() == b.serialized(),
{
    lemma_ascending_unique(a.entries(), b.entries());
}

/// Writing out, reading back and writing out again gives the first output:
/// `back` is any register that reading `r`'s output back can give.
pub proof fn law_round_trip(r: Register, back: Register)
    requires
        r.well_formed(),
        back.well_formed(),
        decoded(r.serialized()) == Some(back@),
    ensures
        back.serialized() == r.serialized(),
{
    law_read_back(r);
    law_serialize_canonical(r, back);
}

/// The names of a written register stand in strictly ascending order.
pub proof fn law_serialized_ascending(r: Register)
    requires
        r.well_formed(),
    ensures
        r.serialized() is Object,
        ascending(r.serialized()->Object_0),
{
    let fields = r.serialized()->Object_0;
    let entries = r.entries();
    assert forall|i: int, j: int| 0 <= i < j < fields.len() implies lex_less(
        (#[trigger] fields[i]).0,
        (#[trigger] fields[j]).0,
    ) by {
        assert(lex_less(entries[i].0, entries[j].0));
    }
}

/// Merging is associative: merging three stores left to right gives the same
/// store however the merges are grouped.
pub proof fn law_merge_associative(
    a: Map<Seq<char>, Seq<char>>,
    b: Map<Seq<char>, Seq<char>>,
    c: Map<Seq<char>, Seq<char>>,
)
    ensures
        merged(merged(a, b), c) == merged(a, merged(b, c)),
{
    assert(merged(merged(a, b), c) =~= merged(a, merged(b, c)));
}

/// Merging is biased to the right: a name of the second store has the second
/// store's value, any other name of the first keeps its value.
pub proof fn law_merge_right_biased(
    a: Map<Seq<char>, Seq<char>>,
    b: Map<Seq<char>, Seq<char>>,
    key: Seq<char>,
)
    ensures
        merged(a, b).contains_key(key) == (a.contains_key(key) || b.contains_key(key)),
        b.contains_key(key) ==> merged(a, b)[key] == b[key],
        a.contains_key(key) && !b.contains_key(key) ==> merged(a, b)[key] == a[key],
{
}

} // verus!
