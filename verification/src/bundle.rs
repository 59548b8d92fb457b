//! Ingest bundles and index construction.
//!
//! A bundle is a named collection of titled text pages. Each page becomes
//! one document: its `title` field is the page title and its `body` field is
//! the page lines joined with newlines. Building an index ingests every page
//! into a fresh single-segment index over the default schema.

use vstd::prelude::*;

use crate::builder::{
    doc_fields_valid, lemma_add_document_wf, spec_add_document, spec_stored_fields, suffix_tokens,
    terms_rest_ok, Builder, BuilderModel, DocField, DocFieldModel, Document, DocumentModel,
    tokens_in_values,
};
use crate::error::Error;
use crate::schema::{default_schema, spec_default_schema};
use crate::segment::{
    FieldValuesModel, Index, IndexModel, Segment, SegmentModel, StoredDocModel, TermEntryModel,
};
use crate::strutil::{join_lines, spec_join_lines};
use crate::tokenizer::spec_tokenize;

verus! {

/// Ghost model of one page.
pub struct PageModel {
    pub title: Seq<char>,
    pub lines: Seq<Seq<char>>,
}

/// One titled text page of a bundle.
pub struct Page {
    pub title: String,
    pub lines: Vec<String>,
}

impl DeepView for Page {
    type V = PageModel;

    open spec fn deep_view(&self) -> PageModel {
        PageModel { title: self.title@, lines: self.lines.deep_view() }
    }
}

/// Ghost model of a bundle.
pub struct ScrapBoxModel {
    pub name: Seq<char>,
    pub pages: Seq<PageModel>,
}

/// An ingest bundle: a name and its pages.
pub struct ScrapBox {
    pub name: String,
    pub pages: Vec<Page>,
}

impl DeepView for ScrapBox {
    type V = ScrapBoxModel;

    open spec fn deep_view(&self) -> ScrapBoxModel {
        ScrapBoxModel { name: self.name@, pages: self.pages.deep_view() }
    }
}

/// The document a page maps to: `title` holds the page title, `body` the
/// lines joined with newlines.
pub open spec fn spec_page_doc(p: PageModel) -> DocumentModel {
    DocumentModel {
        fields: seq![
            DocFieldModel { name: "title"@, values: seq![p.title] },
            DocFieldModel { name: "body"@, values: seq![spec_join_lines(p.lines)] },
        ],
    }
}

/// The stored block a page leaves behind: its title under field 0, its
/// joined body under field 1.
pub open spec fn spec_page_stored(p: PageModel) -> StoredDocModel {
    StoredDocModel {
        fields: seq![
            FieldValuesModel { field: 0, values: seq![p.title] },
            FieldValuesModel { field: 1, values: seq![spec_join_lines(p.lines)] },
        ],
    }
}

/// Ingest the pages from index `k` on into the builder.
pub open spec fn spec_ingest(b: BuilderModel, pages: Seq<PageModel>, k: int) -> BuilderModel
    decreases pages.len() - k,
{
    if k < 0 || k >= pages.len() {
        b
    } else {
        match spec_add_document(b, spec_page_doc(pages[k])) {
            Ok((b2, _id)) => spec_ingest(b2, pages, k + 1),
            Err(_) => b,
        }
    }
}

/// The builder every build starts from: the default schema, nothing
/// ingested.
pub open spec fn spec_initial_builder() -> BuilderModel {
    BuilderModel {
        schema: spec_default_schema(),
        terms: Seq::<TermEntryModel>::empty(),
        docs: Seq::<StoredDocModel>::empty(),
        closed: false,
    }
}

/// What building an index from a bundle yields: one segment holding every
/// page, under the default schema.
pub open spec fn spec_build_index(sb: ScrapBoxModel) -> IndexModel {
    let b = spec_ingest(spec_initial_builder(), sb.pages, 0);
    IndexModel {
        schema: spec_default_schema(),
        segments: seq![SegmentModel { terms: b.terms, docs: b.docs }],
    }
}

/// The default schema declares `title` at id 0 and `body` at id 1, and no
/// page document is rejected by it.
pub proof fn lemma_page_doc_valid(p: PageModel)
    ensures
        spec_default_schema().spec_get_field("title"@) == Some(0u32),
        spec_default_schema().spec_get_field("body"@) == Some(1u32),
        doc_fields_valid(spec_default_schema(), spec_page_doc(p).fields),
{
    reveal_strlit("title");
    reveal_strlit("body");
    let s = spec_default_schema();
    assert(s.fields[0].name == "title"@);
    assert("body"@.len() == 4 && "title"@.len() == 5);
    assert("title"@ != "body"@);
    assert(crate::schema::field_pos(s.fields, "body"@, 1) == Some(1u32));
    assert(s.spec_get_field("body"@) == Some(1u32));
    assert forall|i: int| 0 <= i < spec_page_doc(p).fields.len() implies s.spec_get_field(
        #[trigger] spec_page_doc(p).fields[i].name,
    ) is Some by {
        if i == 0 {
            assert(spec_page_doc(p).fields[0].name == "title"@);
        } else {
            assert(spec_page_doc(p).fields[1].name == "body"@);
        }
    }
}

/// The per-page token budget a caller must respect so that positions fit in
/// `u32`: the title and the joined body each tokenize to at most `u32::MAX`
/// tokens.
pub open spec fn page_within_limits(p: PageModel) -> bool {
    &&& spec_tokenize(p.title).len() <= u32::MAX
    &&& spec_tokenize(spec_join_lines(p.lines)).len() <= u32::MAX
}

/// Build a fresh single-segment index over the default schema from a
/// bundle, ingesting one document per page in order.
#[verifier::loop_isolation(false)]
pub fn build_index(sb: &ScrapBox) -> (r: Index)
    requires
        sb.pages@.len() <= u32::MAX,
        forall|i: int| 0 <= i < sb.pages@.len() ==> page_within_limits(#[trigger] sb.deep_view().pages[i]),
    ensures
        r.deep_view() == spec_build_index(sb.deep_view()),
        crate::segment::index_wf(r.deep_view()),
{
    proof {
        lemma_build_index_wf(sb.deep_view());
    }
    let schema = default_schema();
    let mut b = Builder::new(schema);
    proof {
        assert(b.deep_view() == spec_initial_builder());
    }
    let ghost pages_dv = sb.deep_view().pages;
    let n = sb.pages.len();
    let mut k: usize = 0;
    while k < n
        invariant
            0 <= k <= n == pages_dv.len(),
            b.deep_view().schema == spec_default_schema(),
            !b.closed,
            b.schema.fields@.len() == 2,
            b.docs@.len() == k,
            spec_ingest(spec_initial_builder(), pages_dv, 0) == spec_ingest(
                b.deep_view(),
                pages_dv,
                k as int,
            ),
        decreases n - k,
    {
        let ghost prev = b.deep_view();
        let page = &sb.pages[k];
        let mut values_title: Vec<String> = Vec::new();
        values_title.push(page.title.clone());
        let mut values_body: Vec<String> = Vec::new();
        values_body.push(join_lines(&page.lines));
        let mut fields: Vec<DocField> = Vec::new();
        fields.push(DocField { name: String::from_str("title"), values: values_title });
        fields.push(DocField { name: String::from_str("body"), values: values_body });
        let doc = Document { fields };
        proof {
            assert(pages_dv[k as int] == sb.pages@[k as int].deep_view());
            assert(values_title.deep_view() =~= seq![pages_dv[k as int].title]);
            assert(values_body.deep_view() =~= seq![spec_join_lines(pages_dv[k as int].lines)]);
            assert(doc.fields@[0].deep_view() == spec_page_doc(pages_dv[k as int]).fields[0]);
            assert(doc.fields@[1].deep_view() == spec_page_doc(pages_dv[k as int]).fields[1]);
            assert(doc.deep_view().fields =~= spec_page_doc(pages_dv[k as int]).fields);
            assert(doc.deep_view() == spec_page_doc(pages_dv[k as int]));
            lemma_page_doc_valid(pages_dv[k as int]);
            assert forall|i: int| 0 <= i < doc.fields@.len() implies tokens_in_values(
                #[trigger] doc.fields@[i].deep_view().values,
            ) <= u32::MAX by {
                let vs = doc.fields@[i].deep_view().values;
                assert(vs == spec_page_doc(pages_dv[k as int]).fields[i].values);
                assert(vs.len() == 1);
                assert(vs.drop_last() =~= Seq::<Seq<char>>::empty());
                assert(tokens_in_values(Seq::<Seq<char>>::empty()) == 0);
                assert(tokens_in_values(vs) == spec_tokenize(vs.last()).len());
                assert(page_within_limits(pages_dv[k as int]));
            }
        }
        let _res = b.add_document(&doc);
        proof {
            let sr = spec_add_document(prev, spec_page_doc(pages_dv[k as int]));
            assert(sr is Ok);
            assert(spec_ingest(prev, pages_dv, k as int) == spec_ingest(
                b.deep_view(),
                pages_dv,
                k + 1,
            ));
        }
        k = k + 1;
    }
    let seg = match b.finish() {
        Ok(seg) => seg,
        Err(_) => {
            proof {
                assert(false);
            }
            Segment { terms: Vec::new(), docs: Vec::new() }
        },
    };
    let schema2 = default_schema();
    let mut segments: Vec<Segment> = Vec::new();
    segments.push(seg);
    let idx = Index { schema: schema2, segments };
    proof {
        let built = spec_ingest(spec_initial_builder(), pages_dv, 0);
        assert(idx.segments.deep_view() =~= seq![
            SegmentModel { terms: built.terms, docs: built.docs },
        ]);
        assert(idx.deep_view() == spec_build_index(sb.deep_view()));
    }
    idx
}

/// One page document's stored block is exactly its title and joined body.
proof fn lemma_page_stored_fields(p: PageModel)
    ensures
        spec_stored_fields(
            spec_default_schema(),
            spec_page_doc(p).fields,
            0,
            Seq::<FieldValuesModel>::empty(),
        ) == spec_page_stored(p).fields,
{
    lemma_page_doc_valid(p);
    let sch = spec_default_schema();
    let fs = spec_page_doc(p).fields;
    let step1 = Seq::<FieldValuesModel>::empty().push(
        FieldValuesModel { field: 0, values: fs[0].values },
    );
    assert(spec_stored_fields(sch, fs, 0, Seq::<FieldValuesModel>::empty())
        == spec_stored_fields(sch, fs, 1, step1));
    let step2 = step1.push(FieldValuesModel { field: 1, values: fs[1].values });
    assert(spec_stored_fields(sch, fs, 1, step1) == spec_stored_fields(sch, fs, 2, step2));
    assert(step2 =~= spec_page_stored(p).fields);
}

/// Ingesting pages appends exactly one stored block per page, in order, and
/// leaves the builder open with its schema unchanged.
proof fn lemma_ingest_docs(b: BuilderModel, pages: Seq<PageModel>, k: int)
    requires
        !b.closed,
        b.schema == spec_default_schema(),
        0 <= k <= pages.len(),
    ensures
        ({
            let r = spec_ingest(b, pages, k);
            &&& !r.closed
            &&& r.schema == b.schema
            &&& r.docs.len() == b.docs.len() + (pages.len() - k)
            &&& forall|j: int| 0 <= j < b.docs.len() ==> r.docs[j] == b.docs[j]
            &&& forall|j: int|
                k <= j < pages.len() ==> r.docs[b.docs.len() + (j - k)] == spec_page_stored(
                    #[trigger] pages[j],
                )
        }),
    decreases pages.len() - k,
{
    if k < pages.len() {
        lemma_page_doc_valid(pages[k]);
        lemma_page_stored_fields(pages[k]);
        let sr = spec_add_document(b, spec_page_doc(pages[k]));
        let b2 = sr->Ok_0.0;
        assert(b2.docs =~= b.docs.push(spec_page_stored(pages[k])));
        lemma_ingest_docs(b2, pages, k + 1);
    }
}

/// Ingest-fetch fidelity: fetching the address of the `i`-th ingested page
/// returns exactly that page's stored fields, its title under `title` and
/// its newline-joined lines under `body`.
pub proof fn lemma_ingest_fetch(sb: ScrapBoxModel, i: int)
    requires
        0 <= i < sb.pages.len(),
        sb.pages.len() <= u32::MAX,
    ensures
        crate::store::spec_fetch(
            spec_build_index(sb),
            crate::address::DocAddress { segment_ord: 0, doc_id: i as u32 },
        ) == Ok::<StoredDocModel, Error>(spec_page_stored(sb.pages[i])),
{
    lemma_ingest_docs(spec_initial_builder(), sb.pages, 0);
    let idx = spec_build_index(sb);
    assert(idx.segments[0].docs[i] == spec_page_stored(sb.pages[i]));
}

/// Ingesting pages keeps the dictionary well formed at rest.
proof fn lemma_ingest_wf(b: BuilderModel, pages: Seq<PageModel>, k: int)
    requires
        !b.closed,
        b.schema == spec_default_schema(),
        0 <= k <= pages.len(),
        b.docs.len() + (pages.len() - k) <= u32::MAX,
        terms_rest_ok(b.terms, b.docs.len() as int),
        forall|j: int| k <= j < pages.len() ==> page_within_limits(#[trigger] pages[j]),
    ensures
        ({
            let r = spec_ingest(b, pages, k);
            terms_rest_ok(r.terms, r.docs.len() as int)
        }),
    decreases pages.len() - k,
{
    if k < pages.len() {
        let d = spec_page_doc(pages[k]);
        lemma_page_doc_valid(pages[k]);
        assert(b.schema.spec_get_field(d.fields[0].name) == Some(0u32));
        assert(b.schema.spec_get_field(d.fields[1].name) == Some(1u32));
        assert forall|j: int|
            0 <= j < d.fields.len() implies suffix_tokens((#[trigger] d.fields[j]).values, 0)
            <= u32::MAX by {
            let vs = d.fields[j].values;
            assert(vs.len() == 1);
            assert(suffix_tokens(vs, 1) == 0);
            assert(suffix_tokens(vs, 0) == spec_tokenize(vs[0]).len());
            assert(page_within_limits(pages[k]));
        }
        lemma_add_document_wf(b, d);
        let b2 = spec_add_document(b, d)->Ok_0.0;
        assert(b2.docs.len() == b.docs.len() + 1);
        lemma_ingest_wf(b2, pages, k + 1);
    }
}

/// A built index is well formed: each segment's dictionary is sorted with
/// distinct terms, and each postings list is non-empty, in strictly
/// ascending document order with in-range ids, with non-empty strictly
/// increasing position lists.
pub proof fn lemma_build_index_wf(sb: ScrapBoxModel)
    requires
        sb.pages.len() <= u32::MAX,
        forall|i: int| 0 <= i < sb.pages.len() ==> page_within_limits(#[trigger] sb.pages[i]),
    ensures
        crate::segment::index_wf(spec_build_index(sb)),
{
    let b0 = spec_initial_builder();
    assert(terms_rest_ok(b0.terms, 0));
    lemma_ingest_wf(b0, sb.pages, 0);
    let built = spec_ingest(b0, sb.pages, 0);
    let seg = SegmentModel { terms: built.terms, docs: built.docs };
    assert(crate::segment::segment_wf(seg)) by {
        assert forall|i: int|
            0 <= i < seg.terms.len() implies crate::segment::postings_wf(
            (#[trigger] seg.terms[i]).postings,
            seg.docs.len() as int,
        ) by {
            assert(terms_rest_ok(built.terms, built.docs.len() as int));
        }
    }
    let idx = spec_build_index(sb);
    assert forall|s: int|
        0 <= s < idx.segments.len() implies crate::segment::segment_wf(
        #[trigger] idx.segments[s],
    ) by {
        assert(idx.segments[s] == seg);
    }
}

} // verus!

