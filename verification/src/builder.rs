//! The inverted index builder.
//!
//! Consumes documents one at a time, accumulating postings keyed by
//! (field, term) and retaining stored field values, then yields the finished
//! segment. The dictionary is kept sorted by (field, token) throughout;
//! positions run across the values of a multi-valued field without
//! resetting.

use vstd::prelude::*;

use crate::error::Error;
use crate::schema::{Schema, SchemaModel};
use crate::segment::{
    key_lt, FieldValues, FieldValuesModel, Posting, PostingModel, Segment, SegmentModel, StoredDoc,
    StoredDocModel, TermEntry, TermEntryModel, token_eq, token_lt,
};
use crate::tokenizer::{spec_tokenize, token_views, tokenize};

verus! {

/// Ghost model of one field of an ingest document.
pub struct DocFieldModel {
    pub name: Seq<char>,
    pub values: Seq<Seq<char>>,
}

/// One field of an ingest document: a field name and its text values.
pub struct DocField {
    pub name: String,
    pub values: Vec<String>,
}

impl DeepView for DocField {
    type V = DocFieldModel;

    open spec fn deep_view(&self) -> DocFieldModel {
        DocFieldModel { name: self.name@, values: self.values.deep_view() }
    }
}

/// Ghost model of an ingest document.
pub struct DocumentModel {
    pub fields: Seq<DocFieldModel>,
}

/// An ingest document: a mapping from field name to a sequence of text
/// values, consumed once by the builder.
pub struct Document {
    pub fields: Vec<DocField>,
}

impl DeepView for Document {
    type V = DocumentModel;

    open spec fn deep_view(&self) -> DocumentModel {
        DocumentModel { fields: self.fields.deep_view() }
    }
}

/// The dictionary slot of a term: the first index at or after `i` whose
/// entry is not strictly below (field, token), or the length when all are.
pub open spec fn term_slot_from(ts: Seq<TermEntryModel>, field: u32, token: Seq<char>, i: int) -> int
    decreases ts.len() - i,
{
    if i < 0 || i >= ts.len() {
        ts.len() as int
    } else if key_lt(ts[i].field, ts[i].token, field, token) {
        term_slot_from(ts, field, token, i + 1)
    } else {
        i
    }
}

/// The dictionary slot of a term.
pub open spec fn term_slot(ts: Seq<TermEntryModel>, field: u32, token: Seq<char>) -> int {
    term_slot_from(ts, field, token, 0)
}

/// Record one occurrence of a term at one position of one document: extend
/// the term's posting for that document, start a new posting, or insert a
/// fresh dictionary entry at its sorted slot.
pub open spec fn spec_add_position(
    ts: Seq<TermEntryModel>,
    field: u32,
    token: Seq<char>,
    doc: u32,
    pos: u32,
) -> Seq<TermEntryModel> {
    let s = term_slot(ts, field, token);
    if s < ts.len() && ts[s].field == field && ts[s].token == token {
        let e = ts[s];
        let ps = e.postings;
        if ps.len() > 0 && ps.last().doc_id == doc {
            let p2 = PostingModel { doc_id: doc, positions: ps.last().positions.push(pos) };
            ts.update(
                s,
                TermEntryModel {
                    field: e.field,
                    token: e.token,
                    postings: ps.update(ps.len() - 1, p2),
                },
            )
        } else {
            ts.update(
                s,
                TermEntryModel {
                    field: e.field,
                    token: e.token,
                    postings: ps.push(PostingModel { doc_id: doc, positions: seq![pos] }),
                },
            )
        }
    } else {
        ts.insert(
            s,
            TermEntryModel {
                field,
                token,
                postings: seq![PostingModel { doc_id: doc, positions: seq![pos] }],
            },
        )
    }
}

/// Record the tokens of one field value from index `k` on, at positions
/// `offset + k` onward.
pub open spec fn spec_add_tokens(
    ts: Seq<TermEntryModel>,
    field: u32,
    tokens: Seq<Seq<char>>,
    doc: u32,
    offset: int,
    k: int,
) -> Seq<TermEntryModel>
    decreases tokens.len() - k,
{
    if k < 0 || k >= tokens.len() {
        ts
    } else {
        spec_add_tokens(
            spec_add_position(ts, field, tokens[k], doc, (offset + k) as u32),
            field,
            tokens,
            doc,
            offset,
            k + 1,
        )
    }
}

/// Record the values of one indexed field from index `k` on, with the
/// position offset running across values.
pub open spec fn spec_add_values(
    ts: Seq<TermEntryModel>,
    field: u32,
    values: Seq<Seq<char>>,
    doc: u32,
    offset: int,
    k: int,
) -> Seq<TermEntryModel>
    decreases values.len() - k,
{
    if k < 0 || k >= values.len() {
        ts
    } else {
        let toks = spec_tokenize(values[k]);
        spec_add_values(
            spec_add_tokens(ts, field, toks, doc, offset, 0),
            field,
            values,
            doc,
            offset + toks.len(),
            k + 1,
        )
    }
}

/// Record every indexed field of a document from field index `k` on.
pub open spec fn spec_add_doc_fields(
    ts: Seq<TermEntryModel>,
    schema: SchemaModel,
    fields: Seq<DocFieldModel>,
    doc: u32,
    k: int,
) -> Seq<TermEntryModel>
    decreases fields.len() - k,
{
    if k < 0 || k >= fields.len() {
        ts
    } else {
        let ts2 = match schema.spec_get_field(fields[k].name) {
            Some(fid) => if schema.fields[fid as int].indexed {
                spec_add_values(ts, fid, fields[k].values, doc, 0, 0)
            } else {
                ts
            },
            None => ts,
        };
        spec_add_doc_fields(ts2, schema, fields, doc, k + 1)
    }
}

/// The stored-field block of one document: the values of every stored
/// field, in document order.
pub open spec fn spec_stored_fields(
    schema: SchemaModel,
    fields: Seq<DocFieldModel>,
    k: int,
    acc: Seq<FieldValuesModel>,
) -> Seq<FieldValuesModel>
    decreases fields.len() - k,
{
    if k < 0 || k >= fields.len() {
        acc
    } else {
        let acc2 = match schema.spec_get_field(fields[k].name) {
            Some(fid) => if schema.fields[fid as int].stored {
                acc.push(FieldValuesModel { field: fid, values: fields[k].values })
            } else {
                acc
            },
            None => acc,
        };
        spec_stored_fields(schema, fields, k + 1, acc2)
    }
}

/// Every field name of the document is declared in the schema.
pub open spec fn doc_fields_valid(schema: SchemaModel, fields: Seq<DocFieldModel>) -> bool {
    forall|i: int| 0 <= i < fields.len() ==> schema.spec_get_field(fields[i].name) is Some
}

/// The number of tokens in a sequence of field values.
pub open spec fn tokens_in_values(values: Seq<Seq<char>>) -> int
    decreases values.len(),
{
    if values.len() == 0 {
        0
    } else {
        tokens_in_values(values.drop_last()) + spec_tokenize(values.last()).len()
    }
}

/// Token counts of value prefixes are non-negative and monotone.
pub proof fn lemma_tokens_in_values_prefix(values: Seq<Seq<char>>, k: int)
    requires
        0 <= k <= values.len(),
    ensures
        0 <= tokens_in_values(values.subrange(0, k)) <= tokens_in_values(values),
    decreases values.len() - k,
{
    if k == values.len() {
        assert(values.subrange(0, k) =~= values);
        lemma_tokens_in_values_nonneg(values);
    } else {
        lemma_tokens_in_values_prefix(values, k + 1);
        assert(values.subrange(0, k + 1).drop_last() =~= values.subrange(0, k));
        assert(values.subrange(0, k + 1).last() == values[k]);
        lemma_tokens_in_values_nonneg(values.subrange(0, k));
    }
}

/// Token counts are non-negative.
pub proof fn lemma_tokens_in_values_nonneg(values: Seq<Seq<char>>)
    ensures
        tokens_in_values(values) >= 0,
    decreases values.len(),
{
    if values.len() > 0 {
        lemma_tokens_in_values_nonneg(values.drop_last());
    }
}

/// Ghost model of the builder.
pub struct BuilderModel {
    pub schema: SchemaModel,
    pub terms: Seq<TermEntryModel>,
    pub docs: Seq<StoredDocModel>,
    pub closed: bool,
}

/// What adding a document does: rejected when the builder is closed or a
/// field name is undeclared; otherwise the postings grow by the document's
/// indexed tokens and the stored block by its stored fields, and the new
/// local document id is the previous document count.
pub open spec fn spec_add_document(b: BuilderModel, d: DocumentModel) -> Result<
    (BuilderModel, u32),
    Error,
> {
    if b.closed {
        Err(Error::BuilderClosed)
    } else if !doc_fields_valid(b.schema, d.fields) {
        Err(Error::SchemaMismatch)
    } else {
        let id = b.docs.len() as u32;
        Ok(
            (
                BuilderModel {
                    schema: b.schema,
                    terms: spec_add_doc_fields(b.terms, b.schema, d.fields, id, 0),
                    docs: b.docs.push(
                        StoredDocModel {
                            fields: spec_stored_fields(
                                b.schema,
                                d.fields,
                                0,
                                Seq::<FieldValuesModel>::empty(),
                            ),
                        },
                    ),
                    closed: false,
                },
                id,
            ),
        )
    }
}

/// Accumulates postings and stored fields document by document, then yields
/// the finished segment once.
pub struct Builder {
    pub schema: Schema,
    pub terms: Vec<TermEntry>,
    pub docs: Vec<StoredDoc>,
    pub closed: bool,
}

impl DeepView for Builder {
    type V = BuilderModel;

    open spec fn deep_view(&self) -> BuilderModel {
        BuilderModel {
            schema: self.schema.deep_view(),
            terms: self.terms.deep_view(),
            docs: self.docs.deep_view(),
            closed: self.closed,
        }
    }
}

/// Is the dictionary entry strictly below the (field, token) key?
fn entry_key_lt(e: &TermEntry, field: u32, token: &Vec<char>) -> (r: bool)
    ensures
        r == key_lt(e.deep_view().field, e.deep_view().token, field, token@),
{
    if e.field < field {
        true
    } else if e.field == field {
        token_lt(&e.token, token)
    } else {
        false
    }
}

/// Find the dictionary slot of a term.
fn find_slot(terms: &Vec<TermEntry>, field: u32, token: &Vec<char>) -> (s: usize)
    ensures
        s == term_slot(terms.deep_view(), field, token@),
        s <= terms@.len(),
{
    let n = terms.len();
    let mut i: usize = 0;
    while i < n
        invariant
            0 <= i <= n == terms@.len() == terms.deep_view().len(),
            term_slot(terms.deep_view(), field, token@) == term_slot_from(
                terms.deep_view(),
                field,
                token@,
                i as int,
            ),
        decreases n - i,
    {
        if !entry_key_lt(&terms[i], field, token) {
            return i;
        }
        i = i + 1;
    }
    n
}

/// Record one occurrence of a term in the dictionary.
fn add_position(terms: &mut Vec<TermEntry>, field: u32, token: &Vec<char>, doc: u32, pos: u32)
    ensures
        final(terms).deep_view() == spec_add_position(
            old(terms).deep_view(),
            field,
            token@,
            doc,
            pos,
        ),
{
    let ghost dv0 = terms.deep_view();
    let ghost tgt = spec_add_position(terms.deep_view(), field, token@, doc, pos);
    let s = find_slot(terms, field, token);
    let n = terms.len();
    let found = s < n && terms[s].field == field && token_eq(&terms[s].token, token);
    if found {
        proof {
            assert(dv0[s as int] == terms@[s as int].deep_view());
        }
        let m = terms[s].postings.len();
        if m > 0 && terms[s].postings[m - 1].doc_id == doc {
            let mut p = terms[s].postings.pop().unwrap();
            proof {
                assert(p.deep_view() == dv0[s as int].postings.last());
            }
            p.positions.push(pos);
            terms[s].postings.push(p);
            proof {
                assert(terms@[s as int].deep_view().postings =~= dv0[s as int].postings.update(
                    dv0[s as int].postings.len() - 1,
                    PostingModel {
                        doc_id: doc,
                        positions: dv0[s as int].postings.last().positions.push(pos),
                    },
                ));
                assert(terms@[s as int].deep_view() == tgt[s as int]);
                assert forall|i: int| 0 <= i < terms@.len() implies terms.deep_view()[i] == tgt[i] by {
                    assert(terms.deep_view()[i] == terms@[i].deep_view());
                }
                assert(terms.deep_view() =~= tgt);
            }
        } else {
            let mut positions: Vec<u32> = Vec::new();
            positions.push(pos);
            proof {
                assert(positions@ =~= seq![pos]);
            }
            terms[s].postings.push(Posting { doc_id: doc, positions });
            proof {
                assert(terms@[s as int].deep_view().postings =~= dv0[s as int].postings.push(
                    PostingModel { doc_id: doc, positions: seq![pos] },
                ));
                assert(terms@[s as int].deep_view() == tgt[s as int]);
                assert forall|i: int| 0 <= i < terms@.len() implies terms.deep_view()[i] == tgt[i] by {
                    assert(terms.deep_view()[i] == terms@[i].deep_view());
                }
                assert(terms.deep_view() =~= tgt);
            }
        }
    } else {
        let mut positions: Vec<u32> = Vec::new();
        positions.push(pos);
        proof {
            assert(positions@ =~= seq![pos]);
        }
        let mut postings: Vec<Posting> = Vec::new();
        postings.push(Posting { doc_id: doc, positions });
        let mut tok: Vec<char> = Vec::new();
        let mt = token.len();
        let mut i: usize = 0;
        while i < mt
            invariant
                0 <= i <= mt == token@.len(),
                tok@ =~= token@.subrange(0, i as int),
            decreases mt - i,
        {
            tok.push(token[i]);
            i = i + 1;
        }
        proof {
            assert(tok@ =~= token@);
        }
        let entry = TermEntry { field, token: tok, postings };
        let ghost entry_model = entry.deep_view();
        proof {
            assert(entry_model.postings =~= seq![
                PostingModel { doc_id: doc, positions: seq![pos] },
            ]);
            assert(entry_model == (TermEntryModel {
                field,
                token: token@,
                postings: seq![PostingModel { doc_id: doc, positions: seq![pos] }],
            }));
        }
        terms.insert(s, entry);
        proof {
            let vs1 = terms@;
            assert(vs1 == old(terms)@.insert(s as int, vs1[s as int]));
            old(terms)@.insert_ensures(s as int, vs1[s as int]);
            dv0.insert_ensures(s as int, entry_model);
            assert forall|i: int| 0 <= i < vs1.len() implies terms.deep_view()[i] == tgt[i] by {
                assert(terms.deep_view()[i] == vs1[i].deep_view());
                if i < s {
                    assert(vs1[i] == old(terms)@[i]);
                    assert(tgt[i] == dv0[i]);
                } else if i == s {
                    assert(vs1[i].deep_view() == entry_model);
                    assert(tgt[i] == entry_model);
                } else {
                    let j = i - 1;
                    assert(old(terms)@.insert(s as int, vs1[s as int])[j + 1] == old(terms)@[j]);
                    assert(dv0.insert(s as int, entry_model)[j + 1] == dv0[j]);
                    assert(vs1[i] == old(terms)@[i - 1]);
                    assert(tgt[i] == dv0[i - 1]);
                }
            }
            assert(terms.deep_view() =~= tgt);
        }
    }
}

/// Record all tokens of one field value, at positions `offset` onward.
#[verifier::loop_isolation(false)]
fn add_tokens(terms: &mut Vec<TermEntry>, field: u32, tokens: &Vec<Vec<char>>, doc: u32, offset: u32)
    requires
        offset + tokens@.len() <= u32::MAX,
    ensures
        final(terms).deep_view() == spec_add_tokens(
            old(terms).deep_view(),
            field,
            token_views(tokens@),
            doc,
            offset as int,
            0,
        ),
{
    let ghost dv0 = terms.deep_view();
    let ghost tv = token_views(tokens@);
    let n = tokens.len();
    let mut k: usize = 0;
    while k < n
        invariant
            0 <= k <= n == tokens@.len() == tv.len(),
            offset + n <= u32::MAX,
            spec_add_tokens(dv0, field, tv, doc, offset as int, 0) == spec_add_tokens(
                terms.deep_view(),
                field,
                tv,
                doc,
                offset as int,
                k as int,
            ),
        decreases n - k,
    {
        let ghost prev = terms.deep_view();
        let pos = offset + (k as u32);
        proof {
            assert(token_views(tokens@)[k as int] == tokens@[k as int]@);
        }
        add_position(terms, field, &tokens[k], doc, pos);
        proof {
            assert(terms.deep_view() == spec_add_position(prev, field, tv[k as int], doc, pos));
            assert(pos == (offset + k as int) as u32);
            assert(spec_add_tokens(prev, field, tv, doc, offset as int, k as int)
                == spec_add_tokens(terms.deep_view(), field, tv, doc, offset as int, k + 1));
        }
        k = k + 1;
    }
}

/// Record the values of one indexed field, positions running across values.
fn add_field_values(terms: &mut Vec<TermEntry>, field: u32, values: &Vec<String>, doc: u32)
    requires
        tokens_in_values(values.deep_view()) <= u32::MAX,
    ensures
        final(terms).deep_view() == spec_add_values(
            old(terms).deep_view(),
            field,
            values.deep_view(),
            doc,
            0,
            0,
        ),
{
    let ghost dv0 = terms.deep_view();
    let ghost vv = values.deep_view();
    let n = values.len();
    let mut offset: u32 = 0;
    let mut k: usize = 0;
    proof {
        assert(vv.subrange(0, 0) =~= Seq::<Seq<char>>::empty());
    }
    while k < n
        invariant
            0 <= k <= n == vv.len(),
            vv == values.deep_view(),
            offset == tokens_in_values(vv.subrange(0, k as int)),
            tokens_in_values(vv) <= u32::MAX,
            spec_add_values(dv0, field, vv, doc, 0, 0) == spec_add_values(
                terms.deep_view(),
                field,
                vv,
                doc,
                offset as int,
                k as int,
            ),
        decreases n - k,
    {
        let toks = tokenize(values[k].as_str());
        proof {
            lemma_tokens_in_values_prefix(vv, k + 1);
            assert(vv.subrange(0, k + 1).drop_last() =~= vv.subrange(0, k as int));
            assert(vv.subrange(0, k + 1).last() == vv[k as int]);
            lemma_tokens_in_values_nonneg(vv.subrange(0, k as int));
        }
        add_tokens(terms, field, &toks, doc, offset);
        proof {
            assert(token_views(toks@) == spec_tokenize(vv[k as int]));
        }
        offset = offset + (toks.len() as u32);
        k = k + 1;
    }
    proof {
        assert(vv.subrange(0, n as int) =~= vv);
    }
}

impl Builder {
    /// A fresh, open builder over the given schema.
    pub fn new(schema: Schema) -> (b: Builder)
        ensures
            b.deep_view() == (BuilderModel {
                schema: schema.deep_view(),
                terms: Seq::<TermEntryModel>::empty(),
                docs: Seq::<StoredDocModel>::empty(),
                closed: false,
            }),
            b.schema == schema,
            b.terms@.len() == 0,
            b.docs@.len() == 0,
            !b.closed,
    {
        let b = Builder { schema, terms: Vec::new(), docs: Vec::new(), closed: false };
        proof {
            assert(b.terms.deep_view() =~= Seq::<TermEntryModel>::empty());
            assert(b.docs.deep_view() =~= Seq::<StoredDocModel>::empty());
        }
        b
    }

    /// Ingest one document: index its indexed fields, retain its stored
    /// fields, and return its local document id. Rejects a document naming
    /// an undeclared field with `SchemaMismatch`, and any call after
    /// `finish` with `BuilderClosed`; a rejected call leaves the builder
    /// unchanged.
    #[verifier::loop_isolation(false)]
    pub fn add_document(&mut self, doc: &Document) -> (r: Result<u32, Error>)
        requires
            old(self).schema.fields@.len() <= u32::MAX,
            old(self).docs@.len() < u32::MAX,
            forall|i: int|
                0 <= i < doc.fields@.len() ==> tokens_in_values(
                    #[trigger] doc.fields@[i].deep_view().values,
                ) <= u32::MAX,
        ensures
            ({
                let sr = spec_add_document(old(self).deep_view(), doc.deep_view());
                match r {
                    Ok(id) => sr == Ok::<(BuilderModel, u32), Error>((final(self).deep_view(), id)),
                    Err(e) => sr == Err::<(BuilderModel, u32), Error>(e) && *final(self) == *old(self),
                }
            }),
    {
        if self.closed {
            return Err(Error::BuilderClosed);
        }
        let ghost schema_dv = self.schema.deep_view();
        let ghost fields_dv = doc.deep_view().fields;
        let nf = doc.fields.len();
        let mut i: usize = 0;
        while i < nf
            invariant
                0 <= i <= nf == fields_dv.len(),
                fields_dv == doc.deep_view().fields,
                schema_dv == self.schema.deep_view(),
                self.schema.fields@.len() <= u32::MAX,
                forall|j: int|
                    0 <= j < i ==> schema_dv.spec_get_field(#[trigger] fields_dv[j].name) is Some,
            decreases nf - i,
        {
            proof {
                assert(fields_dv[i as int] == doc.fields@[i as int].deep_view());
            }
            if self.schema.get_field(doc.fields[i].name.as_str()).is_none() {
                proof {
                    assert(schema_dv.spec_get_field(fields_dv[i as int].name) is None);
                    assert(!doc_fields_valid(schema_dv, fields_dv));
                }
                return Err(Error::SchemaMismatch);
            }
            i = i + 1;
        }
        proof {
            assert(doc_fields_valid(schema_dv, fields_dv));
        }
        let id = self.docs.len() as u32;
        let ghost terms0 = self.terms.deep_view();

        let mut k: usize = 0;
        while k < nf
            invariant
                0 <= k <= nf == fields_dv.len(),
                fields_dv == doc.deep_view().fields,
                schema_dv == self.schema.deep_view(),
                self.schema.fields@.len() <= u32::MAX,
                forall|i2: int|
                    0 <= i2 < fields_dv.len() ==> tokens_in_values(
                        #[trigger] fields_dv[i2].values,
                    ) <= u32::MAX,
                doc_fields_valid(schema_dv, fields_dv),
                self.schema == old(self).schema,
                self.docs == old(self).docs,
                !self.closed,
                spec_add_doc_fields(terms0, schema_dv, fields_dv, id, 0) == spec_add_doc_fields(
                    self.terms.deep_view(),
                    schema_dv,
                    fields_dv,
                    id,
                    k as int,
                ),
            decreases nf - k,
        {
            proof {
                assert(fields_dv[k as int] == doc.fields@[k as int].deep_view());
                assert(doc_fields_valid(schema_dv, fields_dv));
            }
            match self.schema.get_field(doc.fields[k].name.as_str()) {
                Some(fid) => {
                    proof {
                        assert(schema_dv.fields[fid as int] == self.schema.fields@[fid as int].deep_view());
                    }
                    if self.schema.fields[fid as usize].indexed {
                        add_field_values(&mut self.terms, fid, &doc.fields[k].values, id);
                    }
                },
                None => {
                    proof {
                        assert(schema_dv.spec_get_field(fields_dv[k as int].name) is Some);
                    }
                },
            }
            k = k + 1;
        }

        let mut stored: Vec<FieldValues> = Vec::new();
        let mut k2: usize = 0;
        proof {
            assert(stored.deep_view() =~= Seq::<FieldValuesModel>::empty());
        }
        while k2 < nf
            invariant
                0 <= k2 <= nf == fields_dv.len(),
                fields_dv == doc.deep_view().fields,
                schema_dv == self.schema.deep_view(),
                self.schema.fields@.len() <= u32::MAX,
                doc_fields_valid(schema_dv, fields_dv),
                spec_stored_fields(schema_dv, fields_dv, 0, Seq::<FieldValuesModel>::empty())
                    == spec_stored_fields(schema_dv, fields_dv, k2 as int, stored.deep_view()),
            decreases nf - k2,
        {
            proof {
                assert(fields_dv[k2 as int] == doc.fields@[k2 as int].deep_view());
                assert(doc_fields_valid(schema_dv, fields_dv));
            }
            match self.schema.get_field(doc.fields[k2].name.as_str()) {
                Some(fid) => {
                    proof {
                        assert(schema_dv.fields[fid as int] == self.schema.fields@[fid as int].deep_view());
                    }
                    if self.schema.fields[fid as usize].stored {
                        let ghost stored0 = stored.deep_view();
                        let mut vals: Vec<String> = Vec::new();
                        let nv = doc.fields[k2].values.len();
                        let mut v: usize = 0;
                        while v < nv
                            invariant
                                0 <= v <= nv == doc.fields@[k2 as int].values@.len(),
                                k2 < doc.fields@.len(),
                                vals.deep_view() =~= doc.fields@[k2 as int].values.deep_view()
                                    .subrange(0, v as int),
                            decreases nv - v,
                        {
                            let ghost vdv = doc.fields@[k2 as int].values.deep_view();
                            let val = doc.fields[k2].values[v].clone();
                            proof {
                                assert(vdv[v as int] == doc.fields@[k2 as int].values@[v as int]@);
                                assert(vdv.subrange(0, v + 1) =~= vdv.subrange(0, v as int).push(
                                    vdv[v as int],
                                ));
                            }
                            vals.push(val);
                            proof {
                                assert(vals.deep_view() =~= vdv.subrange(0, v + 1));
                            }
                            v = v + 1;
                        }
                        proof {
                            assert(vals.deep_view() =~= fields_dv[k2 as int].values);
                        }
                        stored.push(FieldValues { field: fid, values: vals });
                        proof {
                            assert(stored.deep_view() =~= stored0.push(
                                FieldValuesModel {
                                    field: fid,
                                    values: fields_dv[k2 as int].values,
                                },
                            ));
                        }
                    }
                },
                None => {
                    proof {
                        assert(schema_dv.spec_get_field(fields_dv[k2 as int].name) is Some);
                    }
                },
            }
            k2 = k2 + 1;
        }
        let ghost docs0 = self.docs.deep_view();
        self.docs.push(StoredDoc { fields: stored });
        proof {
            assert(self.docs.deep_view() =~= docs0.push(
                StoredDocModel {
                    fields: spec_stored_fields(
                        schema_dv,
                        fields_dv,
                        0,
                        Seq::<FieldValuesModel>::empty(),
                    ),
                },
            ));
            assert(spec_add_doc_fields(self.terms.deep_view(), schema_dv, fields_dv, id, nf as int)
                == self.terms.deep_view());
            assert(self.deep_view() == (BuilderModel {
                schema: schema_dv,
                terms: spec_add_doc_fields(terms0, schema_dv, fields_dv, id, 0),
                docs: docs0.push(
                    StoredDocModel {
                        fields: spec_stored_fields(
                            schema_dv,
                            fields_dv,
                            0,
                            Seq::<FieldValuesModel>::empty(),
                        ),
                    },
                ),
                closed: false,
            }));
        }
        Ok(id)
    }

    /// Close the builder and yield the finished segment. A second call
    /// fails with `BuilderClosed`.
    pub fn finish(&mut self) -> (r: Result<Segment, Error>)
        ensures
            old(self).closed ==> r == Err::<Segment, Error>(Error::BuilderClosed) && *final(self)
                == *old(self),
            !old(self).closed ==> ({
                &&& r is Ok
                &&& r->Ok_0.deep_view() == (SegmentModel {
                    terms: old(self).deep_view().terms,
                    docs: old(self).deep_view().docs,
                })
                &&& final(self).closed
            }),
    {
        if self.closed {
            return Err(Error::BuilderClosed);
        }
        self.closed = true;
        let mut terms: Vec<TermEntry> = Vec::new();
        let mut docs: Vec<StoredDoc> = Vec::new();
        core::mem::swap(&mut terms, &mut self.terms);
        core::mem::swap(&mut docs, &mut self.docs);
        Ok(Segment { terms, docs })
    }
}

/// The entry holds some posting for this document.
pub open spec fn has_doc_posting(e: TermEntryModel, doc: u32) -> bool {
    exists|i: int| 0 <= i < e.postings.len() && (#[trigger] e.postings[i]).doc_id == doc
}

/// A dictionary entry mid-build: non-empty postings in strictly ascending
/// document order, every document id at most the one being ingested, and
/// non-empty, strictly increasing position lists.
pub open spec fn entry_base_ok(e: TermEntryModel, doc: u32) -> bool {
    &&& e.postings.len() > 0
    &&& forall|i: int, j: int|
        0 <= i < j < e.postings.len() ==> (#[trigger] e.postings[i]).doc_id
            < (#[trigger] e.postings[j]).doc_id
    &&& forall|i: int| 0 <= i < e.postings.len() ==> (#[trigger] e.postings[i]).doc_id <= doc
    &&& forall|i: int| 0 <= i < e.postings.len() ==> (#[trigger] e.postings[i]).positions.len() > 0
    &&& forall|i: int, p: int, q: int|
        0 <= i < e.postings.len() && 0 <= p < q < e.postings[i].positions.len()
            ==> (#[trigger] e.postings[i].positions[p]) < (#[trigger] e.postings[i].positions[q])
}

/// The dictionary mid-build: sorted, every entry well formed.
pub open spec fn terms_base_ok(ts: Seq<TermEntryModel>, doc: u32) -> bool {
    &&& crate::segment::terms_sorted(ts)
    &&& forall|t: int| 0 <= t < ts.len() ==> entry_base_ok(#[trigger] ts[t], doc)
}

/// Postings for the current document appear only under the given fields.
pub open spec fn doc_fields_in(ts: Seq<TermEntryModel>, doc: u32, fs: Set<u32>) -> bool {
    forall|t: int|
        0 <= t < ts.len() && has_doc_posting(#[trigger] ts[t], doc) ==> fs.contains(ts[t].field)
}

/// Positions already recorded for this document under this field stay below
/// the bound.
pub open spec fn field_pos_bound(ts: Seq<TermEntryModel>, doc: u32, field: u32, bound: int) -> bool {
    forall|t: int, i: int, p: int|
        0 <= t < ts.len() && (#[trigger] ts[t]).field == field && 0 <= i < ts[t].postings.len()
            && (#[trigger] ts[t].postings[i]).doc_id == doc && 0 <= p
            < ts[t].postings[i].positions.len() ==> (#[trigger] ts[t].postings[i].positions[p])
            < bound
}

/// The dictionary at rest, between documents: sorted, entries well formed,
/// all document ids below the document count.
pub open spec fn terms_rest_ok(ts: Seq<TermEntryModel>, n: int) -> bool {
    &&& crate::segment::terms_sorted(ts)
    &&& forall|t: int| 0 <= t < ts.len() ==> (#[trigger] ts[t]).postings.len() > 0
    &&& forall|t: int, i: int, j: int|
        0 <= t < ts.len() && 0 <= i < j < ts[t].postings.len()
            ==> (#[trigger] ts[t].postings[i]).doc_id < (#[trigger] ts[t].postings[j]).doc_id
    &&& forall|t: int, i: int|
        0 <= t < ts.len() && 0 <= i < (#[trigger] ts[t]).postings.len()
            ==> (#[trigger] ts[t].postings[i]).doc_id < n
    &&& forall|t: int, i: int|
        0 <= t < ts.len() && 0 <= i < (#[trigger] ts[t]).postings.len()
            ==> (#[trigger] ts[t].postings[i]).positions.len() > 0
    &&& forall|t: int, i: int, p: int, q: int|
        0 <= t < ts.len() && 0 <= i < ts[t].postings.len() && 0 <= p < q
            < ts[t].postings[i].positions.len() ==> (#[trigger] ts[t].postings[i].positions[p])
            < (#[trigger] ts[t].postings[i].positions[q])
}

/// The dictionary slot scan: everything before the slot is strictly below
/// the key, the slot itself is not.
proof fn lemma_term_slot_props(ts: Seq<TermEntryModel>, field: u32, token: Seq<char>, i: int)
    requires
        0 <= i <= ts.len(),
    ensures
        i <= term_slot_from(ts, field, token, i) <= ts.len(),
        forall|j: int|
            i <= j < term_slot_from(ts, field, token, i) ==> key_lt(
                (#[trigger] ts[j]).field,
                ts[j].token,
                field,
                token,
            ),
        term_slot_from(ts, field, token, i) < ts.len() ==> !key_lt(
            ts[term_slot_from(ts, field, token, i)].field,
            ts[term_slot_from(ts, field, token, i)].token,
            field,
            token,
        ),
    decreases ts.len() - i,
{
    if i < ts.len() && key_lt(ts[i].field, ts[i].token, field, token) {
        lemma_term_slot_props(ts, field, token, i + 1);
    }
}

/// Dictionary order is connected: keys that compare neither way are equal.
proof fn lemma_key_connected(f1: u32, t1: Seq<char>, f2: u32, t2: Seq<char>)
    requires
        !key_lt(f1, t1, f2, t2),
        !key_lt(f2, t2, f1, t1),
    ensures
        f1 == f2 && t1 == t2,
{
    crate::segment::lemma_lex_lt_connected(t1, t2);
}

/// Recording one occurrence preserves the build invariants and raises the
/// position bound for its field.
proof fn lemma_add_position_wf(
    ts: Seq<TermEntryModel>,
    field: u32,
    token: Seq<char>,
    doc: u32,
    pos: u32,
    fs: Set<u32>,
)
    requires
        terms_base_ok(ts, doc),
        doc_fields_in(ts, doc, fs),
        fs.contains(field),
        field_pos_bound(ts, doc, field, pos as int),
    ensures
        terms_base_ok(spec_add_position(ts, field, token, doc, pos), doc),
        doc_fields_in(spec_add_position(ts, field, token, doc, pos), doc, fs),
        field_pos_bound(spec_add_position(ts, field, token, doc, pos), doc, field, pos + 1),
{
    let r = spec_add_position(ts, field, token, doc, pos);
    let s = term_slot(ts, field, token);
    lemma_term_slot_props(ts, field, token, 0);
    if s < ts.len() && ts[s].field == field && ts[s].token == token {
        let e = ts[s];
        let ps = e.postings;
        let e2 = r[s];
        assert(forall|j: int| 0 <= j < ts.len() && j != s ==> r[j] == ts[j]);
        assert(e2.field == e.field && e2.token == e.token);
        if ps.len() > 0 && ps.last().doc_id == doc {
            let li = ps.len() - 1;
            assert(forall|i: int| 0 <= i < e2.postings.len() && i != li ==> e2.postings[i] == ps[i]);
            assert(e2.postings[li].doc_id == doc);
            assert(e2.postings[li].positions == ps[li].positions.push(pos));
            assert(entry_base_ok(e2, doc)) by {
                assert forall|i: int, p: int, q: int|
                    0 <= i < e2.postings.len() && 0 <= p < q
                        < e2.postings[i].positions.len() implies (
                #[trigger] e2.postings[i].positions[p]) < (
                #[trigger] e2.postings[i].positions[q]) by {
                    if i == li {
                        if q < ps[li].positions.len() {
                        } else {
                            assert(e2.postings[li].positions[q] == pos);
                            assert(ps[li].positions[p] < pos);
                        }
                    }
                }
            }
        } else {
            let li = e2.postings.len() - 1;
            assert(forall|i: int| 0 <= i < ps.len() ==> e2.postings[i] == ps[i]);
            assert(e2.postings[li] == PostingModel { doc_id: doc, positions: seq![pos] });
            assert(entry_base_ok(e2, doc)) by {
                assert(e2.postings[li].positions.len() == 1);
                assert forall|i: int, j: int|
                    0 <= i < j < e2.postings.len() implies (#[trigger] e2.postings[i]).doc_id < (
                    #[trigger] e2.postings[j]).doc_id by {
                    if j == li {
                        assert(ps[i].doc_id <= doc);
                        if ps.len() > 0 && i < ps.len() {
                            if ps[i].doc_id == doc {
                                if i < ps.len() - 1 {
                                    assert(ps[i].doc_id < ps[ps.len() - 1].doc_id);
                                    assert(ps[ps.len() - 1].doc_id <= doc);
                                    assert(false);
                                } else {
                                    assert(ps.last().doc_id != doc);
                                    assert(false);
                                }
                            }
                        }
                    }
                }
            }
        }
        assert(terms_base_ok(r, doc));
        assert(doc_fields_in(r, doc, fs)) by {
            assert forall|t: int|
                0 <= t < r.len() && has_doc_posting(#[trigger] r[t], doc) implies fs.contains(
                r[t].field,
            ) by {
                if t == s {
                    assert(r[t].field == field);
                } else {
                    assert(r[t] == ts[t]);
                }
            }
        }
        assert(field_pos_bound(r, doc, field, pos + 1)) by {
            assert forall|t: int, i: int, p: int|
                0 <= t < r.len() && (#[trigger] r[t]).field == field && 0 <= i
                    < r[t].postings.len() && (#[trigger] r[t].postings[i]).doc_id == doc && 0 <= p
                    < r[t].postings[i].positions.len() implies (
            #[trigger] r[t].postings[i].positions[p]) < pos + 1 by {
                if t == s {
                    if ps.len() > 0 && ps.last().doc_id == doc {
                        if i == ps.len() - 1 && p == r[t].postings[i].positions.len() - 1 {
                        } else if i == ps.len() - 1 {
                            assert(r[t].postings[i].positions[p] == ps[i].positions[p]);
                        } else {
                            assert(r[t].postings[i] == ps[i]);
                        }
                    } else {
                        if i == r[t].postings.len() - 1 {
                            assert(r[t].postings[i].positions[p] == pos);
                        } else {
                            assert(r[t].postings[i] == ps[i]);
                        }
                    }
                } else {
                    assert(r[t] == ts[t]);
                }
            }
        }
    } else {
        let ne = TermEntryModel {
            field,
            token,
            postings: seq![PostingModel { doc_id: doc, positions: seq![pos] }],
        };
        ts.insert_ensures(s, ne);
        assert(r == ts.insert(s, ne));
        assert(entry_base_ok(ne, doc));
        assert(crate::segment::terms_sorted(r)) by {
            if s < ts.len() {
                lemma_key_connected_neq(ts[s].field, ts[s].token, field, token);
            }
            assert forall|i: int, j: int|
                0 <= i < j < r.len() implies key_lt(
                (#[trigger] r[i]).field,
                r[i].token,
                (#[trigger] r[j]).field,
                r[j].token,
            ) by {
                if j < s {
                } else if i < s && j == s {
                    assert(r[i] == ts[i] && r[j] == ne);
                } else if i < s && j > s {
                    assert(r[i] == ts[i] && r[j] == ts[j - 1]);
                } else if i == s {
                    assert(r[i] == ne && r[j] == ts[j - 1]);
                    assert(key_lt(field, token, ts[s].field, ts[s].token));
                    if j - 1 > s {
                        crate::segment::lemma_key_lt_trans(
                            field,
                            token,
                            ts[s].field,
                            ts[s].token,
                            ts[j - 1].field,
                            ts[j - 1].token,
                        );
                    }
                } else {
                    assert(r[i] == ts[i - 1] && r[j] == ts[j - 1]);
                }
            }
        }
        assert(terms_base_ok(r, doc)) by {
            assert forall|t: int| 0 <= t < r.len() implies entry_base_ok(#[trigger] r[t], doc) by {
                if t < s {
                    assert(r[t] == ts[t]);
                } else if t == s {
                } else {
                    assert(r[t] == ts[t - 1]);
                }
            }
        }
        assert(doc_fields_in(r, doc, fs)) by {
            assert forall|t: int|
                0 <= t < r.len() && has_doc_posting(#[trigger] r[t], doc) implies fs.contains(
                r[t].field,
            ) by {
                if t < s {
                    assert(r[t] == ts[t]);
                } else if t == s {
                } else {
                    assert(r[t] == ts[t - 1]);
                }
            }
        }
        assert(field_pos_bound(r, doc, field, pos + 1)) by {
            assert forall|t: int, i: int, p: int|
                0 <= t < r.len() && (#[trigger] r[t]).field == field && 0 <= i
                    < r[t].postings.len() && (#[trigger] r[t].postings[i]).doc_id == doc && 0 <= p
                    < r[t].postings[i].positions.len() implies (
            #[trigger] r[t].postings[i].positions[p]) < pos + 1 by {
                if t < s {
                    assert(r[t] == ts[t]);
                } else if t == s {
                    assert(r[t].postings[i].positions[p] == pos);
                } else {
                    assert(r[t] == ts[t - 1]);
                }
            }
        }
    }
}

/// A key that is neither below nor equal to another is above it.
proof fn lemma_key_connected_neq(f1: u32, t1: Seq<char>, f2: u32, t2: Seq<char>)
    requires
        !key_lt(f1, t1, f2, t2),
        !(f1 == f2 && t1 == t2),
    ensures
        key_lt(f2, t2, f1, t1),
{
    if !key_lt(f2, t2, f1, t1) {
        lemma_key_connected(f1, t1, f2, t2);
    }
}

/// The number of tokens in the values from `k` on.
pub open spec fn suffix_tokens(values: Seq<Seq<char>>, k: int) -> int
    decreases values.len() - k,
{
    if k < 0 || k >= values.len() {
        0
    } else {
        spec_tokenize(values[k]).len() + suffix_tokens(values, k + 1)
    }
}

/// Suffix token counts are non-negative.
proof fn lemma_suffix_tokens_nonneg(values: Seq<Seq<char>>, k: int)
    ensures
        suffix_tokens(values, k) >= 0,
    decreases values.len() - k,
{
    if 0 <= k < values.len() {
        lemma_suffix_tokens_nonneg(values, k + 1);
    }
}

/// Recording one value's tokens preserves the build invariants.
proof fn lemma_add_tokens_wf(
    ts: Seq<TermEntryModel>,
    field: u32,
    tokens: Seq<Seq<char>>,
    doc: u32,
    offset: int,
    k: int,
    fs: Set<u32>,
)
    requires
        0 <= k <= tokens.len(),
        0 <= offset,
        offset + tokens.len() <= u32::MAX,
        terms_base_ok(ts, doc),
        doc_fields_in(ts, doc, fs),
        fs.contains(field),
        field_pos_bound(ts, doc, field, offset + k),
    ensures
        ({
            let r = spec_add_tokens(ts, field, tokens, doc, offset, k);
            &&& terms_base_ok(r, doc)
            &&& doc_fields_in(r, doc, fs)
            &&& field_pos_bound(r, doc, field, offset + tokens.len())
        }),
    decreases tokens.len() - k,
{
    if k < tokens.len() {
        let pos = (offset + k) as u32;
        assert(pos as int == offset + k);
        lemma_add_position_wf(ts, field, tokens[k], doc, pos, fs);
        lemma_add_tokens_wf(
            spec_add_position(ts, field, tokens[k], doc, pos),
            field,
            tokens,
            doc,
            offset,
            k + 1,
            fs,
        );
    }
}

/// Recording one field's values preserves the build invariants.
proof fn lemma_add_values_wf(
    ts: Seq<TermEntryModel>,
    field: u32,
    values: Seq<Seq<char>>,
    doc: u32,
    offset: int,
    k: int,
    fs: Set<u32>,
)
    requires
        0 <= k <= values.len(),
        0 <= offset,
        offset + suffix_tokens(values, k) <= u32::MAX,
        terms_base_ok(ts, doc),
        doc_fields_in(ts, doc, fs),
        fs.contains(field),
        field_pos_bound(ts, doc, field, offset),
    ensures
        ({
            let r = spec_add_values(ts, field, values, doc, offset, k);
            &&& terms_base_ok(r, doc)
            &&& doc_fields_in(r, doc, fs)
        }),
    decreases values.len() - k,
{
    if k < values.len() {
        let toks = spec_tokenize(values[k]);
        lemma_suffix_tokens_nonneg(values, k + 1);
        assert(field_pos_bound(ts, doc, field, offset + 0));
        lemma_add_tokens_wf(ts, field, toks, doc, offset, 0, fs);
        let ts2 = spec_add_tokens(ts, field, toks, doc, offset, 0);
        lemma_add_values_wf(ts2, field, values, doc, offset + toks.len(), k + 1, fs);
    }
}

/// Recording every indexed field of a document with distinct, fresh field
/// ids preserves the dictionary invariants.
proof fn lemma_add_doc_fields_wf(
    ts: Seq<TermEntryModel>,
    schema: SchemaModel,
    fields: Seq<DocFieldModel>,
    doc: u32,
    k: int,
    fs: Set<u32>,
)
    requires
        0 <= k <= fields.len(),
        terms_base_ok(ts, doc),
        doc_fields_in(ts, doc, fs),
        forall|j: int|
            k <= j < fields.len() ==> (#[trigger] schema.spec_get_field(fields[j].name)) is Some
                ==> !fs.contains(schema.spec_get_field(fields[j].name)->0),
        forall|j1: int, j2: int|
            k <= j1 < j2 < fields.len() && schema.spec_get_field(
                (#[trigger] fields[j1]).name,
            ) is Some && schema.spec_get_field((#[trigger] fields[j2]).name) is Some
                ==> schema.spec_get_field(fields[j1].name) != schema.spec_get_field(
                fields[j2].name,
            ),
        forall|j: int|
            k <= j < fields.len() ==> suffix_tokens((#[trigger] fields[j]).values, 0) <= u32::MAX,
    ensures
        terms_base_ok(spec_add_doc_fields(ts, schema, fields, doc, k), doc),
    decreases fields.len() - k,
{
    if k < fields.len() {
        match schema.spec_get_field(fields[k].name) {
            Some(fid) => {
                if schema.fields[fid as int].indexed {
                    let fs2 = fs.insert(fid);
                    assert(doc_fields_in(ts, doc, fs2)) by {
                        assert forall|t: int|
                            0 <= t < ts.len() && has_doc_posting(#[trigger] ts[t], doc) implies fs2.contains(
                            ts[t].field,
                        ) by {
                            assert(fs.contains(ts[t].field));
                        }
                    }
                    assert(field_pos_bound(ts, doc, fid, 0)) by {
                        assert forall|t: int, i: int, p: int|
                            0 <= t < ts.len() && (#[trigger] ts[t]).field == fid && 0 <= i
                                < ts[t].postings.len() && (#[trigger] ts[t].postings[i]).doc_id
                                == doc && 0 <= p
                                < ts[t].postings[i].positions.len() implies (
                        #[trigger] ts[t].postings[i].positions[p]) < 0 by {
                            assert(has_doc_posting(ts[t], doc));
                            assert(fs.contains(fid));
                            assert(false);
                        }
                    }
                    lemma_suffix_tokens_nonneg(fields[k].values, 0);
                    lemma_add_values_wf(ts, fid, fields[k].values, doc, 0, 0, fs2);
                    let ts2 = spec_add_values(ts, fid, fields[k].values, doc, 0, 0);
                    lemma_add_doc_fields_wf(ts2, schema, fields, doc, k + 1, fs2);
                } else {
                    lemma_add_doc_fields_wf(ts, schema, fields, doc, k + 1, fs);
                }
            },
            None => {
                lemma_add_doc_fields_wf(ts, schema, fields, doc, k + 1, fs);
            },
        }
    }
}

/// A dictionary well formed during ingest of document `doc` is well formed
/// at rest for `doc + 1` documents.
pub proof fn lemma_base_to_rest(ts: Seq<TermEntryModel>, doc: u32)
    requires
        terms_base_ok(ts, doc),
    ensures
        terms_rest_ok(ts, doc + 1),
{
}

/// A dictionary at rest for `n` documents is ready to ingest document `n`:
/// well formed for it, with no posting for it under any field.
pub proof fn lemma_rest_to_base(ts: Seq<TermEntryModel>, n: u32)
    requires
        terms_rest_ok(ts, n as int),
    ensures
        terms_base_ok(ts, n),
        doc_fields_in(ts, n, Set::<u32>::empty()),
{
    assert forall|t: int|
        0 <= t < ts.len() && has_doc_posting(#[trigger] ts[t], n) implies Set::<u32>::empty().contains(
        ts[t].field,
    ) by {
        let i = choose|i: int|
            0 <= i < ts[t].postings.len() && (#[trigger] ts[t].postings[i]).doc_id == n;
        assert(ts[t].postings[i].doc_id < n);
        assert(false);
    }
}

/// Adding one document with distinct field ids keeps the dictionary well
/// formed at rest, for one more document.
pub proof fn lemma_add_document_wf(b: BuilderModel, d: DocumentModel)
    requires
        !b.closed,
        b.docs.len() <= u32::MAX - 1,
        terms_rest_ok(b.terms, b.docs.len() as int),
        doc_fields_valid(b.schema, d.fields),
        forall|j1: int, j2: int|
            0 <= j1 < j2 < d.fields.len() && b.schema.spec_get_field(
                (#[trigger] d.fields[j1]).name,
            ) is Some && b.schema.spec_get_field((#[trigger] d.fields[j2]).name) is Some
                ==> b.schema.spec_get_field(d.fields[j1].name) != b.schema.spec_get_field(
                d.fields[j2].name,
            ),
        forall|j: int|
            0 <= j < d.fields.len() ==> suffix_tokens((#[trigger] d.fields[j]).values, 0)
                <= u32::MAX,
    ensures
        ({
            let r = spec_add_document(b, d);
            &&& r is Ok
            &&& terms_rest_ok(r->Ok_0.0.terms, r->Ok_0.0.docs.len() as int)
        }),
{
    let id = b.docs.len() as u32;
    lemma_rest_to_base(b.terms, id);
    lemma_add_doc_fields_wf(b.terms, b.schema, d.fields, id, 0, Set::<u32>::empty());
    lemma_base_to_rest(spec_add_doc_fields(b.terms, b.schema, d.fields, id, 0), id);
}

} // verus!
