//! Segments and the index.
//!
//! A segment is an immutable unit of storage: a dictionary of distinct
//! terms sorted by (field, token), each with its postings list, plus a
//! stored-field block addressed by local document id. An index is the
//! schema together with the ordered sequence of its segments.

use vstd::prelude::*;

use crate::schema::{Schema, SchemaModel};

verus! {

/// Ghost model of one posting.
pub struct PostingModel {
    pub doc_id: u32,
    pub positions: Seq<u32>,
}

/// One term's occurrence record for one document: the positions (term
/// ordinals) at which the term occurs. The term frequency is the number of
/// positions.
pub struct Posting {
    pub doc_id: u32,
    pub positions: Vec<u32>,
}

impl DeepView for Posting {
    type V = PostingModel;

    open spec fn deep_view(&self) -> PostingModel {
        PostingModel { doc_id: self.doc_id, positions: self.positions@ }
    }
}

/// Ghost model of one dictionary entry.
pub struct TermEntryModel {
    pub field: u32,
    pub token: Seq<char>,
    pub postings: Seq<PostingModel>,
}

/// One dictionary entry: a (field, token) term and its postings list in
/// ascending document-id order.
pub struct TermEntry {
    pub field: u32,
    pub token: Vec<char>,
    pub postings: Vec<Posting>,
}

impl DeepView for TermEntry {
    type V = TermEntryModel;

    open spec fn deep_view(&self) -> TermEntryModel {
        TermEntryModel {
            field: self.field,
            token: self.token@,
            postings: self.postings.deep_view(),
        }
    }
}

/// Ghost model of the stored values of one field of one document.
pub struct FieldValuesModel {
    pub field: u32,
    pub values: Seq<Seq<char>>,
}

/// The stored values of one field of one document, in original order.
pub struct FieldValues {
    pub field: u32,
    pub values: Vec<String>,
}

impl DeepView for FieldValues {
    type V = FieldValuesModel;

    open spec fn deep_view(&self) -> FieldValuesModel {
        FieldValuesModel { field: self.field, values: self.values.deep_view() }
    }
}

/// Ghost model of one stored document.
pub struct StoredDocModel {
    pub fields: Seq<FieldValuesModel>,
}

/// The stored fields of one document.
pub struct StoredDoc {
    pub fields: Vec<FieldValues>,
}

impl DeepView for StoredDoc {
    type V = StoredDocModel;

    open spec fn deep_view(&self) -> StoredDocModel {
        StoredDocModel { fields: self.fields.deep_view() }
    }
}

/// Ghost model of a segment.
pub struct SegmentModel {
    pub terms: Seq<TermEntryModel>,
    pub docs: Seq<StoredDocModel>,
}

/// An immutable, independently searchable slice of the index: the term
/// dictionary with postings, and the stored-field block. Local document ids
/// are contiguous starting at zero.
pub struct Segment {
    pub terms: Vec<TermEntry>,
    pub docs: Vec<StoredDoc>,
}

impl DeepView for Segment {
    type V = SegmentModel;

    open spec fn deep_view(&self) -> SegmentModel {
        SegmentModel { terms: self.terms.deep_view(), docs: self.docs.deep_view() }
    }
}

/// Ghost model of an index.
pub struct IndexModel {
    pub schema: SchemaModel,
    pub segments: Seq<SegmentModel>,
}

/// The durable collection of segments plus the schema.
pub struct Index {
    pub schema: Schema,
    pub segments: Vec<Segment>,
}

impl DeepView for Index {
    type V = IndexModel;

    open spec fn deep_view(&self) -> IndexModel {
        IndexModel { schema: self.schema.deep_view(), segments: self.segments.deep_view() }
    }
}

/// Strict lexicographic order on token character sequences, by code point.
pub open spec fn lex_lt(a: Seq<char>, b: Seq<char>) -> bool
    decreases a.len(),
{
    if b.len() == 0 {
        false
    } else if a.len() == 0 {
        true
    } else if a[0] < b[0] {
        true
    } else if a[0] > b[0] {
        false
    } else {
        lex_lt(a.drop_first(), b.drop_first())
    }
}

/// Strict dictionary order on terms: by field id, then token.
pub open spec fn key_lt(f1: u32, t1: Seq<char>, f2: u32, t2: Seq<char>) -> bool {
    f1 < f2 || (f1 == f2 && lex_lt(t1, t2))
}

/// Lexicographic order is connected: distinct sequences compare one way.
pub proof fn lemma_lex_lt_connected(a: Seq<char>, b: Seq<char>)
    requires
        !lex_lt(a, b),
        !lex_lt(b, a),
    ensures
        a == b,
    decreases a.len(),
{
    if a.len() == 0 && b.len() == 0 {
        assert(a =~= b);
    } else if a.len() == 0 {
        assert(lex_lt(a, b));
    } else if b.len() == 0 {
        assert(lex_lt(b, a));
    } else {
        assert(a[0] == b[0]);
        lemma_lex_lt_connected(a.drop_first(), b.drop_first());
        assert(a.len() == b.len());
        assert forall|i: int| 0 <= i < a.len() implies a[i] == b[i] by {
            if i > 0 {
                assert(a[i] == a.drop_first()[i - 1]);
                assert(b[i] == b.drop_first()[i - 1]);
            }
        }
        assert(a =~= b);
    }
}

/// Lexicographic order is transitive.
pub proof fn lemma_lex_lt_trans(a: Seq<char>, b: Seq<char>, c: Seq<char>)
    requires
        lex_lt(a, b),
        lex_lt(b, c),
    ensures
        lex_lt(a, c),
    decreases a.len(),
{
    if b.len() == 0 {
    } else if a.len() == 0 {
    } else if c.len() == 0 {
    } else {
        if a[0] == b[0] && b[0] == c[0] {
            lemma_lex_lt_trans(a.drop_first(), b.drop_first(), c.drop_first());
        }
    }
}

/// Dictionary order on terms is transitive.
pub proof fn lemma_key_lt_trans(
    f1: u32,
    t1: Seq<char>,
    f2: u32,
    t2: Seq<char>,
    f3: u32,
    t3: Seq<char>,
)
    requires
        key_lt(f1, t1, f2, t2),
        key_lt(f2, t2, f3, t3),
    ensures
        key_lt(f1, t1, f3, t3),
{
    if f1 == f2 && f2 == f3 {
        lemma_lex_lt_trans(t1, t2, t3);
    }
}

/// The dictionary of a segment is sorted strictly: its terms are distinct
/// and in ascending (field, token) order.
pub open spec fn terms_sorted(ts: Seq<TermEntryModel>) -> bool {
    forall|i: int, j: int|
        0 <= i < j < ts.len() ==> key_lt(ts[i].field, ts[i].token, ts[j].field, ts[j].token)
}

/// A postings list is well formed for a segment with `n_docs` documents:
/// document ids are strictly increasing and in range, and positions within
/// one posting are strictly increasing and non-empty.
pub open spec fn postings_wf(ps: Seq<PostingModel>, n_docs: int) -> bool {
    &&& forall|i: int, j: int| 0 <= i < j < ps.len() ==> ps[i].doc_id < ps[j].doc_id
    &&& forall|i: int| 0 <= i < ps.len() ==> ps[i].doc_id < n_docs
    &&& forall|i: int| 0 <= i < ps.len() ==> ps[i].positions.len() > 0
    &&& forall|i: int, p: int, q: int|
        0 <= i < ps.len() && 0 <= p < q < ps[i].positions.len() ==> ps[i].positions[p]
            < ps[i].positions[q]
}

/// A segment is well formed: a sorted dictionary of distinct terms, each
/// with a well-formed, non-empty postings list.
pub open spec fn segment_wf(seg: SegmentModel) -> bool {
    &&& terms_sorted(seg.terms)
    &&& forall|i: int|
        0 <= i < seg.terms.len() ==> postings_wf(#[trigger] seg.terms[i].postings, seg.docs.len() as int)
    &&& forall|i: int| 0 <= i < seg.terms.len() ==> #[trigger] seg.terms[i].postings.len() > 0
}

/// An index is well formed when each of its segments is.
pub open spec fn index_wf(idx: IndexModel) -> bool {
    forall|s: int| 0 <= s < idx.segments.len() ==> segment_wf(#[trigger] idx.segments[s])
}

/// Compare two owned tokens for equality.
pub fn token_eq(a: &Vec<char>, b: &Vec<char>) -> (r: bool)
    ensures
        r == (a@ == b@),
{
    let n = a.len();
    if n != b.len() {
        proof {
            assert(a@ != b@);
        }
        return false;
    }
    let mut i: usize = 0;
    while i < n
        invariant
            0 <= i <= n == a@.len() == b@.len(),
            forall|j: int| 0 <= j < i ==> a@[j] == b@[j],
        decreases n - i,
    {
        if a[i] != b[i] {
            return false;
        }
        i = i + 1;
    }
    proof {
        assert(a@ =~= b@);
    }
    true
}

/// Compare two owned tokens in lexicographic order.
pub fn token_lt(a: &Vec<char>, b: &Vec<char>) -> (r: bool)
    ensures
        r == lex_lt(a@, b@),
{
    let n = a.len();
    let m = b.len();
    let mut i: usize = 0;
    proof {
        assert(a@.skip(0) =~= a@);
        assert(b@.skip(0) =~= b@);
    }
    while i < n && i < m
        invariant
            0 <= i <= n == a@.len(),
            i <= m == b@.len(),
            lex_lt(a@, b@) == lex_lt(a@.skip(i as int), b@.skip(i as int)),
        decreases n - i,
    {
        let x = a[i];
        let y = b[i];
        proof {
            let sa = a@.skip(i as int);
            let sb = b@.skip(i as int);
            assert(sa[0] == a@[i as int]);
            assert(sb[0] == b@[i as int]);
            assert(sa.drop_first() =~= a@.skip(i + 1));
            assert(sb.drop_first() =~= b@.skip(i + 1));
        }
        if x < y {
            return true;
        }
        if x > y {
            return false;
        }
        i = i + 1;
    }
    proof {
        let sa = a@.skip(i as int);
        let sb = b@.skip(i as int);
        assert(sa.len() == n - i);
        assert(sb.len() == m - i);
    }
    i < m
}

/// Check one postings list structurally: non-empty, strictly ascending
/// in-range document ids, non-empty strictly increasing position lists.
#[verifier::loop_isolation(false)]
fn check_postings(ps: &Vec<Posting>, n_docs: usize) -> (r: bool)
    ensures
        r == (postings_wf(ps.deep_view(), n_docs as int) && ps@.len() > 0),
{
    let n = ps.len();
    if n == 0 {
        return false;
    }
    let mut i: usize = 0;
    while i < n
        invariant
            0 <= i <= n == ps@.len(),
            forall|a: int, b: int|
                0 <= a < b < i ==> (#[trigger] ps.deep_view()[a]).doc_id
                    < (#[trigger] ps.deep_view()[b]).doc_id,
            forall|a: int| 0 <= a < i ==> (#[trigger] ps.deep_view()[a]).doc_id < n_docs,
            forall|a: int| 0 <= a < i ==> (#[trigger] ps.deep_view()[a]).positions.len() > 0,
            forall|a: int, q1: int, q2: int|
                0 <= a < i && 0 <= q1 < q2 < ps.deep_view()[a].positions.len()
                    ==> (#[trigger] ps.deep_view()[a].positions[q1])
                    < (#[trigger] ps.deep_view()[a].positions[q2]),
        decreases n - i,
    {
        proof {
            assert(ps.deep_view()[i as int] == ps@[i as int].deep_view());
        }
        if (ps[i].doc_id as usize) >= n_docs {
            return false;
        }
        if i > 0 {
            proof {
                assert(ps.deep_view()[i - 1] == ps@[i - 1].deep_view());
            }
            if ps[i - 1].doc_id >= ps[i].doc_id {
                return false;
            }
        }
        let m = ps[i].positions.len();
        if m == 0 {
            return false;
        }
        let mut q: usize = 1;
        while q < m
            invariant
                1 <= q <= m == ps@[i as int].positions@.len(),
                i < ps@.len(),
                ps.deep_view()[i as int] == ps@[i as int].deep_view(),
                forall|q1: int, q2: int|
                    0 <= q1 < q2 < q ==> (#[trigger] ps.deep_view()[i as int].positions[q1])
                        < (#[trigger] ps.deep_view()[i as int].positions[q2]),
            decreases m - q,
        {
            if ps[i].positions[q - 1] >= ps[i].positions[q] {
                return false;
            }
            q = q + 1;
        }
        i = i + 1;
    }
    true
}

/// Check one segment structurally: a sorted dictionary of well-formed,
/// non-empty postings lists.
#[verifier::loop_isolation(false)]
fn check_segment(seg: &Segment) -> (r: bool)
    ensures
        r == segment_wf(seg.deep_view()),
{
    let n_docs = seg.docs.len();
    let nt = seg.terms.len();
    let mut i: usize = 0;
    while i < nt
        invariant
            0 <= i <= nt == seg.terms@.len(),
            n_docs == seg.docs@.len(),
            forall|a: int, b: int|
                0 <= a < b < i ==> key_lt(
                    (#[trigger] seg.terms.deep_view()[a]).field,
                    seg.terms.deep_view()[a].token,
                    (#[trigger] seg.terms.deep_view()[b]).field,
                    seg.terms.deep_view()[b].token,
                ),
            forall|a: int|
                0 <= a < i ==> postings_wf(
                    (#[trigger] seg.terms.deep_view()[a]).postings,
                    seg.docs@.len() as int,
                ) && seg.terms.deep_view()[a].postings.len() > 0,
        decreases nt - i,
    {
        proof {
            assert(seg.terms.deep_view()[i as int] == seg.terms@[i as int].deep_view());
        }
        if !check_postings(&seg.terms[i].postings, n_docs) {
            proof {
                assert(seg.deep_view().docs.len() == seg.docs@.len());
                if segment_wf(seg.deep_view()) {
                    assert(postings_wf(
                        seg.deep_view().terms[i as int].postings,
                        seg.deep_view().docs.len() as int,
                    ));
                    assert(seg.deep_view().terms[i as int].postings.len() > 0);
                    assert(false);
                }
            }
            return false;
        }
        if i > 0 {
            proof {
                assert(seg.terms.deep_view()[i - 1] == seg.terms@[i - 1].deep_view());
            }
            let prev = &seg.terms[i - 1];
            let cur = &seg.terms[i];
            let ok = prev.field < cur.field || (prev.field == cur.field && token_lt(
                &prev.token,
                &cur.token,
            ));
            if !ok {
                proof {
                    assert(!key_lt(
                        seg.terms.deep_view()[i - 1].field,
                        seg.terms.deep_view()[i - 1].token,
                        seg.terms.deep_view()[i as int].field,
                        seg.terms.deep_view()[i as int].token,
                    ));
                }
                return false;
            }
            proof {
                assert forall|a: int, b: int|
                    0 <= a < b < i + 1 implies key_lt(
                    (#[trigger] seg.terms.deep_view()[a]).field,
                    seg.terms.deep_view()[a].token,
                    (#[trigger] seg.terms.deep_view()[b]).field,
                    seg.terms.deep_view()[b].token,
                ) by {
                    if b == i && a < i - 1 {
                        lemma_key_lt_trans(
                            seg.terms.deep_view()[a].field,
                            seg.terms.deep_view()[a].token,
                            seg.terms.deep_view()[i - 1].field,
                            seg.terms.deep_view()[i - 1].token,
                            seg.terms.deep_view()[i as int].field,
                            seg.terms.deep_view()[i as int].token,
                        );
                    }
                }
            }
        }
        i = i + 1;
    }
    true
}

/// Check an index structurally, segment by segment.
#[verifier::loop_isolation(false)]
pub fn is_wf_index(index: &Index) -> (r: bool)
    ensures
        r == index_wf(index.deep_view()),
{
    let ns = index.segments.len();
    let mut s: usize = 0;
    while s < ns
        invariant
            0 <= s <= ns == index.segments@.len(),
            forall|a: int| 0 <= a < s ==> segment_wf(#[trigger] index.segments.deep_view()[a]),
        decreases ns - s,
    {
        proof {
            assert(index.segments.deep_view()[s as int] == index.segments@[s as int].deep_view());
        }
        if !check_segment(&index.segments[s]) {
            proof {
                if index_wf(index.deep_view()) {
                    assert(segment_wf(index.deep_view().segments[s as int]));
                    assert(false);
                }
            }
            return false;
        }
        s = s + 1;
    }
    true
}

} // verus!
