//! The index image codec.
//!
//! Serializes an index into an immutable byte image with a fixed layout:
//! a magic word, the schema, every segment's dictionary, postings and
//! stored-field block, and a trailing checksum word, all as little-endian
//! 32-bit words. Decoding validates the framing and checksum, and accepts a
//! parse only when re-encoding it reproduces the input bytes exactly, so
//! every decoded index re-encodes to the image it came from. Writing the
//! image to durable storage (and doing so atomically) is the caller's part.

use vstd::prelude::*;

use crate::error::Error;
use crate::schema::{FieldDef, FieldDefModel, Schema};
use crate::segment::{
    FieldValues, FieldValuesModel, Index, IndexModel, Posting, PostingModel, Segment, SegmentModel,
    StoredDoc, StoredDocModel, TermEntry, TermEntryModel,
};
use crate::strutil::{char_from_u32, push_char};

verus! {

/// The image's leading magic word.
pub const MAGIC: u32 = 0x53435251;

/// A character sequence as words: its length, then one word per character.
pub open spec fn enc_str(s: Seq<char>) -> Seq<u32> {
    seq![s.len() as u32] + Seq::new(s.len(), |i: int| s[i] as u32)
}

/// A position list as words: its length, then the positions.
pub open spec fn enc_u32list(v: Seq<u32>) -> Seq<u32> {
    seq![v.len() as u32] + v
}

/// One posting: its document id, then its position list.
pub open spec fn enc_posting(p: PostingModel) -> Seq<u32> {
    seq![p.doc_id] + enc_u32list(p.positions)
}

/// The postings from `k` on, concatenated.
pub open spec fn enc_postings(ps: Seq<PostingModel>, k: int) -> Seq<u32>
    decreases ps.len() - k,
{
    if k < 0 || k >= ps.len() {
        Seq::<u32>::empty()
    } else {
        enc_posting(ps[k]) + enc_postings(ps, k + 1)
    }
}

/// One dictionary entry: field id, token, posting count, postings.
pub open spec fn enc_term(t: TermEntryModel) -> Seq<u32> {
    seq![t.field] + enc_str(t.token) + seq![t.postings.len() as u32] + enc_postings(t.postings, 0)
}

/// The dictionary entries from `k` on, concatenated.
pub open spec fn enc_terms(ts: Seq<TermEntryModel>, k: int) -> Seq<u32>
    decreases ts.len() - k,
{
    if k < 0 || k >= ts.len() {
        Seq::<u32>::empty()
    } else {
        enc_term(ts[k]) + enc_terms(ts, k + 1)
    }
}

/// The stored values from `k` on, concatenated.
pub open spec fn enc_values(vs: Seq<Seq<char>>, k: int) -> Seq<u32>
    decreases vs.len() - k,
{
    if k < 0 || k >= vs.len() {
        Seq::<u32>::empty()
    } else {
        enc_str(vs[k]) + enc_values(vs, k + 1)
    }
}

/// One stored field of one document: field id, value count, values.
pub open spec fn enc_fieldvals(fv: FieldValuesModel) -> Seq<u32> {
    seq![fv.field, fv.values.len() as u32] + enc_values(fv.values, 0)
}

/// The stored fields of one document from `k` on, concatenated.
pub open spec fn enc_doc_fields(fs: Seq<FieldValuesModel>, k: int) -> Seq<u32>
    decreases fs.len() - k,
{
    if k < 0 || k >= fs.len() {
        Seq::<u32>::empty()
    } else {
        enc_fieldvals(fs[k]) + enc_doc_fields(fs, k + 1)
    }
}

/// One stored document: its field count, then its fields.
pub open spec fn enc_doc(d: StoredDocModel) -> Seq<u32> {
    seq![d.fields.len() as u32] + enc_doc_fields(d.fields, 0)
}

/// The stored documents from `k` on, concatenated.
pub open spec fn enc_docs(ds: Seq<StoredDocModel>, k: int) -> Seq<u32>
    decreases ds.len() - k,
{
    if k < 0 || k >= ds.len() {
        Seq::<u32>::empty()
    } else {
        enc_doc(ds[k]) + enc_docs(ds, k + 1)
    }
}

/// A boolean as a word.
pub open spec fn enc_bool(b: bool) -> u32 {
    if b {
        1
    } else {
        0
    }
}

/// One field declaration: name, indexed flag, stored flag.
pub open spec fn enc_fielddef(f: FieldDefModel) -> Seq<u32> {
    enc_str(f.name) + seq![enc_bool(f.indexed), enc_bool(f.stored)]
}

/// The field declarations from `k` on, concatenated.
pub open spec fn enc_schema(fs: Seq<FieldDefModel>, k: int) -> Seq<u32>
    decreases fs.len() - k,
{
    if k < 0 || k >= fs.len() {
        Seq::<u32>::empty()
    } else {
        enc_fielddef(fs[k]) + enc_schema(fs, k + 1)
    }
}

/// One segment: dictionary size, dictionary, document count, stored block.
pub open spec fn enc_segment(s: SegmentModel) -> Seq<u32> {
    seq![s.terms.len() as u32] + enc_terms(s.terms, 0) + seq![s.docs.len() as u32] + enc_docs(
        s.docs,
        0,
    )
}

/// The segments from `k` on, concatenated.
pub open spec fn enc_segments(ss: Seq<SegmentModel>, k: int) -> Seq<u32>
    decreases ss.len() - k,
{
    if k < 0 || k >= ss.len() {
        Seq::<u32>::empty()
    } else {
        enc_segment(ss[k]) + enc_segments(ss, k + 1)
    }
}

/// The payload words of an index image: magic, schema, segments.
pub open spec fn spec_encode_words(idx: IndexModel) -> Seq<u32> {
    seq![MAGIC, idx.schema.fields.len() as u32] + enc_schema(idx.schema.fields, 0) + seq![
        idx.segments.len() as u32,
    ] + enc_segments(idx.segments, 0)
}

/// The running checksum of the words from `k` on: a wrapping 32-bit sum.
pub open spec fn cksum(ws: Seq<u32>, k: int, acc: int) -> int
    decreases ws.len() - k,
{
    if k < 0 || k >= ws.len() {
        acc
    } else {
        cksum(ws, k + 1, (acc + ws[k]) % 0x100000000)
    }
}

/// The little-endian bytes of the words from `k` on.
pub open spec fn words_to_bytes(ws: Seq<u32>, k: int) -> Seq<u8>
    decreases ws.len() - k,
{
    if k < 0 || k >= ws.len() {
        Seq::<u8>::empty()
    } else {
        let w = ws[k];
        seq![
            (w % 256) as u8,
            ((w / 256) % 256) as u8,
            ((w / 65536) % 256) as u8,
            (w / 16777216) as u8,
        ] + words_to_bytes(ws, k + 1)
    }
}

/// The full byte image of an index: its payload words, a checksum word,
/// little-endian.
pub open spec fn spec_encode_bytes(idx: IndexModel) -> Seq<u8> {
    let ws = spec_encode_words(idx);
    words_to_bytes(ws.push(cksum(ws, 0, 0) as u32), 0)
}

/// Every count and every string of the index fits in a 32-bit word.
pub open spec fn idx_bounded(idx: IndexModel) -> bool {
    &&& idx.schema.fields.len() <= u32::MAX
    &&& idx.segments.len() <= u32::MAX
    &&& forall|f: int|
        0 <= f < idx.schema.fields.len() ==> (#[trigger] idx.schema.fields[f]).name.len()
            <= u32::MAX
    &&& forall|s: int|
        0 <= s < idx.segments.len() ==> seg_bounded(#[trigger] idx.segments[s])
}

/// Every count and every string of the segment fits in a 32-bit word.
pub open spec fn seg_bounded(s: SegmentModel) -> bool {
    &&& s.terms.len() <= u32::MAX
    &&& s.docs.len() <= u32::MAX
    &&& forall|t: int| 0 <= t < s.terms.len() ==> term_bounded(#[trigger] s.terms[t])
    &&& forall|d: int| 0 <= d < s.docs.len() ==> doc_bounded(#[trigger] s.docs[d])
}

/// Sequence concatenation is associative.
proof fn lemma_assoc<A>(a: Seq<A>, b: Seq<A>, c: Seq<A>)
    ensures
        (a + b) + c == a + (b + c),
{
    assert((a + b) + c =~= a + (b + c));
}

/// A dictionary entry's counts fit in words.
pub open spec fn term_bounded(t: TermEntryModel) -> bool {
    &&& t.token.len() <= u32::MAX
    &&& t.postings.len() <= u32::MAX
    &&& forall|p: int|
        0 <= p < t.postings.len() ==> (#[trigger] t.postings[p]).positions.len() <= u32::MAX
}

/// A stored document's counts fit in words.
pub open spec fn doc_bounded(d: StoredDocModel) -> bool {
    &&& d.fields.len() <= u32::MAX
    &&& forall|f: int|
        0 <= f < d.fields.len() ==> (#[trigger] d.fields[f]).values.len() <= u32::MAX && (forall|
            v: int,
        |
            0 <= v < d.fields[f].values.len() ==> (#[trigger] d.fields[f].values[v]).len()
                <= u32::MAX)
}

/// Append the words of one character sequence; fails when it is too long.
#[verifier::loop_isolation(false)]
fn push_token_words(out: &mut Vec<u32>, t: &Vec<char>) -> (r: bool)
    ensures
        r ==> final(out)@ == old(out)@ + enc_str(t@) && t@.len() <= u32::MAX,
        !r ==> t@.len() > u32::MAX,
{
    let n = t.len();
    if n > u32::MAX as usize {
        return false;
    }
    let ghost base = out@;
    out.push(n as u32);
    let mut i: usize = 0;
    while i < n
        invariant
            0 <= i <= n == t@.len() <= u32::MAX,
            out@ =~= base + seq![n as u32] + Seq::new(i as nat, |j: int| t@[j] as u32),
        decreases n - i,
    {
        out.push(t[i] as u32);
        i = i + 1;
    }
    proof {
        assert(out@ =~= base + enc_str(t@));
    }
    true
}

/// Append the words of one string value; fails when it is too long.
#[verifier::loop_isolation(false)]
fn push_str_words(out: &mut Vec<u32>, s: &str) -> (r: bool)
    ensures
        r ==> final(out)@ == old(out)@ + enc_str(s@) && s@.len() <= u32::MAX,
        !r ==> s@.len() > u32::MAX,
{
    let n = s.unicode_len();
    if n > u32::MAX as usize {
        return false;
    }
    let ghost base = out@;
    out.push(n as u32);
    let mut i: usize = 0;
    while i < n
        invariant
            0 <= i <= n == s@.len() <= u32::MAX,
            out@ =~= base + seq![n as u32] + Seq::new(i as nat, |j: int| s@[j] as u32),
        decreases n - i,
    {
        out.push(s.get_char(i) as u32);
        i = i + 1;
    }
    proof {
        assert(out@ =~= base + enc_str(s@));
    }
    true
}

/// Append the words of one dictionary entry; fails when a count is too
/// large.
#[verifier::loop_isolation(false)]
fn push_term_words(out: &mut Vec<u32>, t: &TermEntry) -> (r: bool)
    ensures
        r ==> final(out)@ == old(out)@ + enc_term(t.deep_view()) && term_bounded(t.deep_view()),
        !r ==> !term_bounded(t.deep_view()),
{
    let ghost tdv = t.deep_view();
    out.push(t.field);
    if !push_token_words(out, &t.token) {
        return false;
    }
    let np = t.postings.len();
    if np > u32::MAX as usize {
        return false;
    }
    out.push(np as u32);
    let ghost base = out@;
    let mut k: usize = 0;
    while k < np
        invariant
            0 <= k <= np == t.postings@.len() <= u32::MAX,
            tdv == t.deep_view(),
            out@ + enc_postings(tdv.postings, k as int) =~= base + enc_postings(tdv.postings, 0),
            forall|p: int|
                0 <= p < k ==> (#[trigger] tdv.postings[p]).positions.len() <= u32::MAX,
        decreases np - k,
    {
        proof {
            assert(tdv.postings[k as int] == t.postings@[k as int].deep_view());
        }
        let npos = t.postings[k].positions.len();
        if npos > u32::MAX as usize {
            proof {
                assert(!term_bounded(tdv));
            }
            return false;
        }
        let ghost pre = out@;
        out.push(t.postings[k].doc_id);
        out.push(npos as u32);
        let mut q: usize = 0;
        while q < npos
            invariant
                0 <= q <= npos == t.postings@[k as int].positions@.len(),
                k < t.postings@.len(),
                out@ =~= pre + seq![t.postings@[k as int].doc_id, npos as u32] + t.postings@[
                    k as int
                ].positions@.subrange(0, q as int),
            decreases npos - q,
        {
            out.push(t.postings[k].positions[q]);
            q = q + 1;
        }
        proof {
            assert(out@ =~= pre + enc_posting(tdv.postings[k as int]));
            lemma_assoc(pre, enc_posting(tdv.postings[k as int]), enc_postings(tdv.postings, k + 1));
            assert(enc_posting(tdv.postings[k as int]) + enc_postings(tdv.postings, k + 1)
                == enc_postings(tdv.postings, k as int));
            assert(out@ + enc_postings(tdv.postings, k + 1) =~= base + enc_postings(tdv.postings, 0));
        }
        k = k + 1;
    }
    proof {
        assert(enc_postings(tdv.postings, np as int) =~= Seq::<u32>::empty());
        assert(out@ + Seq::<u32>::empty() =~= out@);
        assert(out@ =~= old(out)@ + enc_term(tdv));
    }
    true
}

/// Append the words of one stored document; fails when a count is too
/// large.
#[verifier::loop_isolation(false)]
fn push_doc_words(out: &mut Vec<u32>, d: &StoredDoc) -> (r: bool)
    ensures
        r ==> final(out)@ == old(out)@ + enc_doc(d.deep_view()) && doc_bounded(d.deep_view()),
        !r ==> !doc_bounded(d.deep_view()),
{
    let ghost ddv = d.deep_view();
    let nf = d.fields.len();
    if nf > u32::MAX as usize {
        return false;
    }
    out.push(nf as u32);
    let ghost base = out@;
    let mut k: usize = 0;
    while k < nf
        invariant
            0 <= k <= nf == d.fields@.len() <= u32::MAX,
            ddv == d.deep_view(),
            out@ + enc_doc_fields(ddv.fields, k as int) =~= base + enc_doc_fields(ddv.fields, 0),
            forall|f: int|
                0 <= f < k ==> (#[trigger] ddv.fields[f]).values.len() <= u32::MAX && (forall|
                    v: int,
                |
                    0 <= v < ddv.fields[f].values.len() ==> (#[trigger] ddv.fields[f].values[v]).len()
                        <= u32::MAX),
        decreases nf - k,
    {
        proof {
            assert(ddv.fields[k as int] == d.fields@[k as int].deep_view());
        }
        let nv = d.fields[k].values.len();
        if nv > u32::MAX as usize {
            proof {
                assert(!doc_bounded(ddv));
            }
            return false;
        }
        let ghost pre = out@;
        out.push(d.fields[k].field);
        out.push(nv as u32);
        let ghost vbase = out@;
        let mut v: usize = 0;
        while v < nv
            invariant
                0 <= v <= nv == d.fields@[k as int].values@.len(),
                k < d.fields@.len(),
                ddv == d.deep_view(),
                ddv.fields[k as int] == d.fields@[k as int].deep_view(),
                out@ + enc_values(ddv.fields[k as int].values, v as int) =~= vbase + enc_values(
                    ddv.fields[k as int].values,
                    0,
                ),
                forall|w: int|
                    0 <= w < v ==> (#[trigger] ddv.fields[k as int].values[w]).len() <= u32::MAX,
            decreases nv - v,
        {
            proof {
                assert(ddv.fields[k as int].values[v as int] == d.fields@[k as int].values@[
                    v as int
                ]@);
            }
            let ghost mid = out@;
            if !push_str_words(out, d.fields[k].values[v].as_str()) {
                proof {
                    assert(!doc_bounded(ddv));
                }
                return false;
            }
            proof {
                lemma_assoc(
                    mid,
                    enc_str(ddv.fields[k as int].values[v as int]),
                    enc_values(ddv.fields[k as int].values, v + 1),
                );
                assert(out@ + enc_values(ddv.fields[k as int].values, v + 1) =~= vbase
                    + enc_values(ddv.fields[k as int].values, 0));
            }
            v = v + 1;
        }
        proof {
            assert(enc_values(ddv.fields[k as int].values, nv as int) =~= Seq::<u32>::empty());
            assert(out@ + Seq::<u32>::empty() =~= out@);
            assert(out@ =~= pre + enc_fieldvals(ddv.fields[k as int]));
            lemma_assoc(
                pre,
                enc_fieldvals(ddv.fields[k as int]),
                enc_doc_fields(ddv.fields, k + 1),
            );
            assert(out@ + enc_doc_fields(ddv.fields, k + 1) =~= base + enc_doc_fields(ddv.fields, 0));
        }
        k = k + 1;
    }
    proof {
        assert(enc_doc_fields(ddv.fields, nf as int) =~= Seq::<u32>::empty());
        assert(out@ + Seq::<u32>::empty() =~= out@);
        assert(out@ =~= old(out)@ + enc_doc(ddv));
    }
    true
}

/// Append the words of one segment; fails when a count is too large.
#[verifier::loop_isolation(false)]
fn push_segment_words(out: &mut Vec<u32>, s: &Segment) -> (r: bool)
    ensures
        r ==> final(out)@ == old(out)@ + enc_segment(s.deep_view()) && seg_bounded(s.deep_view()),
        !r ==> !seg_bounded(s.deep_view()),
{
    let ghost sdv = s.deep_view();
    let nt = s.terms.len();
    if nt > u32::MAX as usize {
        return false;
    }
    out.push(nt as u32);
    let ghost base = out@;
    let mut k: usize = 0;
    while k < nt
        invariant
            0 <= k <= nt == s.terms@.len() <= u32::MAX,
            sdv == s.deep_view(),
            out@ + enc_terms(sdv.terms, k as int) =~= base + enc_terms(sdv.terms, 0),
            forall|t: int| 0 <= t < k ==> term_bounded(#[trigger] sdv.terms[t]),
        decreases nt - k,
    {
        proof {
            assert(sdv.terms[k as int] == s.terms@[k as int].deep_view());
        }
        let ghost pre = out@;
        if !push_term_words(out, &s.terms[k]) {
            proof {
                assert(!seg_bounded(sdv));
            }
            return false;
        }
        proof {
            lemma_assoc(pre, enc_term(sdv.terms[k as int]), enc_terms(sdv.terms, k + 1));
            assert(out@ + enc_terms(sdv.terms, k + 1) =~= base + enc_terms(sdv.terms, 0));
        }
        k = k + 1;
    }
    proof {
        assert(enc_terms(sdv.terms, nt as int) =~= Seq::<u32>::empty());
        assert(out@ + Seq::<u32>::empty() =~= out@);
    }
    let nd = s.docs.len();
    if nd > u32::MAX as usize {
        return false;
    }
    out.push(nd as u32);
    let ghost base2 = out@;
    let mut k2: usize = 0;
    while k2 < nd
        invariant
            0 <= k2 <= nd == s.docs@.len() <= u32::MAX,
            sdv == s.deep_view(),
            out@ + enc_docs(sdv.docs, k2 as int) =~= base2 + enc_docs(sdv.docs, 0),
            forall|d: int| 0 <= d < k2 ==> doc_bounded(#[trigger] sdv.docs[d]),
        decreases nd - k2,
    {
        proof {
            assert(sdv.docs[k2 as int] == s.docs@[k2 as int].deep_view());
        }
        let ghost pre = out@;
        if !push_doc_words(out, &s.docs[k2]) {
            proof {
                assert(!seg_bounded(sdv));
            }
            return false;
        }
        proof {
            lemma_assoc(pre, enc_doc(sdv.docs[k2 as int]), enc_docs(sdv.docs, k2 + 1));
            assert(out@ + enc_docs(sdv.docs, k2 + 1) =~= base2 + enc_docs(sdv.docs, 0));
        }
        k2 = k2 + 1;
    }
    proof {
        assert(enc_docs(sdv.docs, nd as int) =~= Seq::<u32>::empty());
        assert(out@ + Seq::<u32>::empty() =~= out@);
        assert(out@ =~= old(out)@ + enc_segment(sdv));
    }
    true
}

/// The payload words of an index; fails when a count or string is too
/// large.
#[verifier::loop_isolation(false)]
fn encode_words(index: &Index) -> (r: Result<Vec<u32>, Error>)
    ensures
        ({
            match r {
                Ok(ws) => ws@ == spec_encode_words(index.deep_view()) && idx_bounded(
                    index.deep_view(),
                ),
                Err(e) => e == Error::IOError && !idx_bounded(index.deep_view()),
            }
        }),
{
    let ghost idx = index.deep_view();
    let mut out: Vec<u32> = Vec::new();
    let nf = index.schema.fields.len();
    if nf > u32::MAX as usize {
        return Err(Error::IOError);
    }
    out.push(MAGIC);
    out.push(nf as u32);
    let ghost base = out@;
    proof {
        assert(base =~= seq![MAGIC, idx.schema.fields.len() as u32]);
    }
    let mut k: usize = 0;
    while k < nf
        invariant
            0 <= k <= nf == index.schema.fields@.len() <= u32::MAX,
            idx == index.deep_view(),
            out@ + enc_schema(idx.schema.fields, k as int) =~= base + enc_schema(
                idx.schema.fields,
                0,
            ),
            forall|f: int|
                0 <= f < k ==> (#[trigger] idx.schema.fields[f]).name.len() <= u32::MAX,
        decreases nf - k,
    {
        proof {
            assert(idx.schema.fields[k as int] == index.schema.fields@[k as int].deep_view());
        }
        let ghost pre = out@;
        if !push_str_words(&mut out, index.schema.fields[k].name.as_str()) {
            proof {
                assert(!idx_bounded(idx));
            }
            return Err(Error::IOError);
        }
        let fd = &index.schema.fields[k];
        out.push(if fd.indexed { 1 } else { 0 });
        out.push(if fd.stored { 1 } else { 0 });
        proof {
            assert(out@ =~= pre + enc_fielddef(idx.schema.fields[k as int]));
            lemma_assoc(
                pre,
                enc_fielddef(idx.schema.fields[k as int]),
                enc_schema(idx.schema.fields, k + 1),
            );
            assert(out@ + enc_schema(idx.schema.fields, k + 1) =~= base + enc_schema(
                idx.schema.fields,
                0,
            ));
        }
        k = k + 1;
    }
    proof {
        assert(enc_schema(idx.schema.fields, nf as int) =~= Seq::<u32>::empty());
        assert(out@ + Seq::<u32>::empty() =~= out@);
    }
    let ns = index.segments.len();
    if ns > u32::MAX as usize {
        return Err(Error::IOError);
    }
    out.push(ns as u32);
    let ghost base2 = out@;
    let mut k2: usize = 0;
    while k2 < ns
        invariant
            0 <= k2 <= ns == index.segments@.len() <= u32::MAX,
            idx == index.deep_view(),
            out@ + enc_segments(idx.segments, k2 as int) =~= base2 + enc_segments(idx.segments, 0),
            forall|t: int| 0 <= t < k2 ==> seg_bounded(#[trigger] idx.segments[t]),
        decreases ns - k2,
    {
        proof {
            assert(idx.segments[k2 as int] == index.segments@[k2 as int].deep_view());
        }
        let ghost pre = out@;
        if !push_segment_words(&mut out, &index.segments[k2]) {
            proof {
                assert(!idx_bounded(idx));
            }
            return Err(Error::IOError);
        }
        proof {
            lemma_assoc(pre, enc_segment(idx.segments[k2 as int]), enc_segments(idx.segments, k2 + 1));
            assert(out@ + enc_segments(idx.segments, k2 + 1) =~= base2 + enc_segments(
                idx.segments,
                0,
            ));
        }
        k2 = k2 + 1;
    }
    proof {
        assert(enc_segments(idx.segments, ns as int) =~= Seq::<u32>::empty());
        assert(out@ + Seq::<u32>::empty() =~= out@);
        assert(out@ =~= spec_encode_words(idx));
    }
    Ok(out)
}

/// The wrapping 32-bit sum of the words.
#[verifier::loop_isolation(false)]
fn exec_cksum(ws: &Vec<u32>) -> (r: u32)
    ensures
        r as int == cksum(ws@, 0, 0),
{
    let mut acc: u32 = 0;
    let n = ws.len();
    let mut k: usize = 0;
    while k < n
        invariant
            0 <= k <= n == ws@.len(),
            cksum(ws@, 0, 0) == cksum(ws@, k as int, acc as int),
        decreases n - k,
    {
        let wide = acc as u64 + ws[k] as u64;
        acc = (wide % 0x100000000u64) as u32;
        k = k + 1;
    }
    acc
}

/// Serialize an index into its byte image: payload words then a checksum
/// word, little-endian. Fails with `IOError` only when a count or string of
/// the index exceeds what a 32-bit word can frame.
#[verifier::loop_isolation(false)]
pub fn encode_index(index: &Index) -> (r: Result<Vec<u8>, Error>)
    ensures
        ({
            match r {
                Ok(bytes) => bytes@ == spec_encode_bytes(index.deep_view()) && idx_bounded(
                    index.deep_view(),
                ),
                Err(e) => e == Error::IOError && !idx_bounded(index.deep_view()),
            }
        }),
{
    let mut words = match encode_words(index) {
        Ok(ws) => ws,
        Err(e) => {
            return Err(e);
        },
    };
    let c = exec_cksum(&words);
    let ghost payload = words@;
    words.push(c);
    proof {
        assert(words@ =~= payload.push(cksum(payload, 0, 0) as u32));
    }
    let mut bytes: Vec<u8> = Vec::new();
    let n = words.len();
    let mut k: usize = 0;
    proof {
        assert(bytes@ =~= Seq::<u8>::empty());
    }
    while k < n
        invariant
            0 <= k <= n == words@.len(),
            bytes@ + words_to_bytes(words@, k as int) =~= words_to_bytes(words@, 0),
        decreases n - k,
    {
        let ghost pre = bytes@;
        let w = words[k];
        bytes.push((w % 256) as u8);
        bytes.push(((w / 256) % 256) as u8);
        bytes.push(((w / 65536) % 256) as u8);
        bytes.push((w / 16777216) as u8);
        proof {
            let chunk = seq![
                (w % 256) as u8,
                ((w / 256) % 256) as u8,
                ((w / 65536) % 256) as u8,
                (w / 16777216) as u8,
            ];
            assert(bytes@ =~= pre + chunk);
            lemma_assoc(pre, chunk, words_to_bytes(words@, k + 1));
            assert(chunk + words_to_bytes(words@, k + 1) == words_to_bytes(words@, k as int));
            assert(bytes@ + words_to_bytes(words@, k + 1) =~= words_to_bytes(words@, 0));
        }
        k = k + 1;
    }
    proof {
        assert(words_to_bytes(words@, n as int) =~= Seq::<u8>::empty());
        assert(bytes@ + Seq::<u8>::empty() =~= bytes@);
        assert(bytes@ == spec_encode_bytes(index.deep_view()));
    }
    Ok(bytes)
}

/// Compare two byte vectors.
#[verifier::loop_isolation(false)]
fn bytes_eq(a: &Vec<u8>, b: &Vec<u8>) -> (r: bool)
    ensures
        r == (a@ == b@),
{
    let n = a.len();
    if n != b.len() {
        proof {
            assert(a@ != b@);
        }
        return false;
    }
    let mut i: usize = 0;
    while i < n
        invariant
            0 <= i <= n == a@.len() == b@.len(),
            forall|j: int| 0 <= j < i ==> a@[j] == b@[j],
        decreases n - i,
    {
        if a[i] != b[i] {
            return false;
        }
        i = i + 1;
    }
    proof {
        assert(a@ =~= b@);
    }
    true
}

/// The chunk of words stands in `ws` at position `pos`.
pub open spec fn is_enc_at(ws: Seq<u32>, pos: int, chunk: Seq<u32>) -> bool {
    &&& 0 <= pos
    &&& pos + chunk.len() <= ws.len()
    &&& ws.subrange(pos, pos + chunk.len()) == chunk
}

/// A located chunk is read word for word.
proof fn lemma_enc_index(ws: Seq<u32>, pos: int, chunk: Seq<u32>, i: int)
    requires
        is_enc_at(ws, pos, chunk),
        0 <= i < chunk.len(),
    ensures
        ws[pos + i] == chunk[i],
{
    assert(ws.subrange(pos, pos + chunk.len())[i] == ws[pos + i]);
}

/// A located concatenation locates both halves.
proof fn lemma_enc_split(ws: Seq<u32>, pos: int, a: Seq<u32>, b: Seq<u32>)
    requires
        is_enc_at(ws, pos, a + b),
    ensures
        is_enc_at(ws, pos, a),
        is_enc_at(ws, pos + a.len(), b),
{
    assert forall|i: int| 0 <= i < a.len() implies ws[pos + i] == a[i] by {
        assert(ws.subrange(pos, pos + (a + b).len())[i] == ws[pos + i]);
        assert((a + b)[i] == a[i]);
    }
    assert forall|i: int| 0 <= i < b.len() implies ws[pos + a.len() + i] == b[i] by {
        assert(ws.subrange(pos, pos + (a + b).len())[a.len() + i] == ws[pos + a.len() + i]);
        assert((a + b)[a.len() + i] == b[i]);
    }
    assert(ws.subrange(pos, pos + a.len()) =~= a);
    assert(ws.subrange(pos + a.len(), pos + a.len() + b.len()) =~= b);
}

/// Appending one posting extends the postings encoding on the right.
proof fn lemma_enc_postings_push(ps: Seq<PostingModel>, x: PostingModel, k: int)
    requires
        0 <= k <= ps.len(),
    ensures
        enc_postings(ps.push(x), k) == enc_postings(ps, k) + enc_posting(x),
    decreases ps.len() - k,
{
    if k == ps.len() {
        assert(ps.push(x)[k] == x);
        assert(enc_postings(ps.push(x), k + 1) =~= Seq::<u32>::empty());
        assert(enc_postings(ps.push(x), k) =~= enc_posting(x) + Seq::<u32>::empty());
        assert(enc_postings(ps, k) + enc_posting(x) =~= enc_posting(x));
        assert(enc_posting(x) + Seq::<u32>::empty() =~= enc_posting(x));
    } else {
        lemma_enc_postings_push(ps, x, k + 1);
        assert(ps.push(x)[k] == ps[k]);
        lemma_assoc(enc_posting(ps[k]), enc_postings(ps, k + 1), enc_posting(x));
    }
}

/// Appending one value extends the values encoding on the right.
proof fn lemma_enc_values_push(vs: Seq<Seq<char>>, x: Seq<char>, k: int)
    requires
        0 <= k <= vs.len(),
    ensures
        enc_values(vs.push(x), k) == enc_values(vs, k) + enc_str(x),
    decreases vs.len() - k,
{
    if k == vs.len() {
        assert(vs.push(x)[k] == x);
        assert(enc_values(vs.push(x), k + 1) =~= Seq::<u32>::empty());
        assert(enc_values(vs.push(x), k) =~= enc_str(x) + Seq::<u32>::empty());
        assert(enc_values(vs, k) + enc_str(x) =~= enc_str(x));
        assert(enc_str(x) + Seq::<u32>::empty() =~= enc_str(x));
    } else {
        lemma_enc_values_push(vs, x, k + 1);
        assert(vs.push(x)[k] == vs[k]);
        lemma_assoc(enc_str(vs[k]), enc_values(vs, k + 1), enc_str(x));
    }
}

/// Appending one stored field extends the encoding on the right.
proof fn lemma_enc_doc_fields_push(fs: Seq<FieldValuesModel>, x: FieldValuesModel, k: int)
    requires
        0 <= k <= fs.len(),
    ensures
        enc_doc_fields(fs.push(x), k) == enc_doc_fields(fs, k) + enc_fieldvals(x),
    decreases fs.len() - k,
{
    if k == fs.len() {
        assert(fs.push(x)[k] == x);
        assert(enc_doc_fields(fs.push(x), k + 1) =~= Seq::<u32>::empty());
        assert(enc_doc_fields(fs.push(x), k) =~= enc_fieldvals(x) + Seq::<u32>::empty());
        assert(enc_doc_fields(fs, k) + enc_fieldvals(x) =~= enc_fieldvals(x));
        assert(enc_fieldvals(x) + Seq::<u32>::empty() =~= enc_fieldvals(x));
    } else {
        lemma_enc_doc_fields_push(fs, x, k + 1);
        assert(fs.push(x)[k] == fs[k]);
        lemma_assoc(enc_fieldvals(fs[k]), enc_doc_fields(fs, k + 1), enc_fieldvals(x));
    }
}

/// Appending one dictionary entry extends the encoding on the right.
proof fn lemma_enc_terms_push(ts: Seq<TermEntryModel>, x: TermEntryModel, k: int)
    requires
        0 <= k <= ts.len(),
    ensures
        enc_terms(ts.push(x), k) == enc_terms(ts, k) + enc_term(x),
    decreases ts.len() - k,
{
    if k == ts.len() {
        assert(ts.push(x)[k] == x);
        assert(enc_terms(ts.push(x), k + 1) =~= Seq::<u32>::empty());
        assert(enc_terms(ts.push(x), k) =~= enc_term(x) + Seq::<u32>::empty());
        assert(enc_terms(ts, k) + enc_term(x) =~= enc_term(x));
        assert(enc_term(x) + Seq::<u32>::empty() =~= enc_term(x));
    } else {
        lemma_enc_terms_push(ts, x, k + 1);
        assert(ts.push(x)[k] == ts[k]);
        lemma_assoc(enc_term(ts[k]), enc_terms(ts, k + 1), enc_term(x));
    }
}

/// Appending one stored document extends the encoding on the right.
proof fn lemma_enc_docs_push(ds: Seq<StoredDocModel>, x: StoredDocModel, k: int)
    requires
        0 <= k <= ds.len(),
    ensures
        enc_docs(ds.push(x), k) == enc_docs(ds, k) + enc_doc(x),
    decreases ds.len() - k,
{
    if k == ds.len() {
        assert(ds.push(x)[k] == x);
        assert(enc_docs(ds.push(x), k + 1) =~= Seq::<u32>::empty());
        assert(enc_docs(ds.push(x), k) =~= enc_doc(x) + Seq::<u32>::empty());
        assert(enc_docs(ds, k) + enc_doc(x) =~= enc_doc(x));
        assert(enc_doc(x) + Seq::<u32>::empty() =~= enc_doc(x));
    } else {
        lemma_enc_docs_push(ds, x, k + 1);
        assert(ds.push(x)[k] == ds[k]);
        lemma_assoc(enc_doc(ds[k]), enc_docs(ds, k + 1), enc_doc(x));
    }
}

/// Appending one field declaration extends the encoding on the right.
proof fn lemma_enc_schema_push(fs: Seq<FieldDefModel>, x: FieldDefModel, k: int)
    requires
        0 <= k <= fs.len(),
    ensures
        enc_schema(fs.push(x), k) == enc_schema(fs, k) + enc_fielddef(x),
    decreases fs.len() - k,
{
    if k == fs.len() {
        assert(fs.push(x)[k] == x);
        assert(enc_schema(fs.push(x), k + 1) =~= Seq::<u32>::empty());
        assert(enc_schema(fs.push(x), k) =~= enc_fielddef(x) + Seq::<u32>::empty());
        assert(enc_schema(fs, k) + enc_fielddef(x) =~= enc_fielddef(x));
        assert(enc_fielddef(x) + Seq::<u32>::empty() =~= enc_fielddef(x));
    } else {
        lemma_enc_schema_push(fs, x, k + 1);
        assert(fs.push(x)[k] == fs[k]);
        lemma_assoc(enc_fielddef(fs[k]), enc_schema(fs, k + 1), enc_fielddef(x));
    }
}

/// Appending one segment extends the encoding on the right.
proof fn lemma_enc_segments_push(ss: Seq<SegmentModel>, x: SegmentModel, k: int)
    requires
        0 <= k <= ss.len(),
    ensures
        enc_segments(ss.push(x), k) == enc_segments(ss, k) + enc_segment(x),
    decreases ss.len() - k,
{
    if k == ss.len() {
        assert(ss.push(x)[k] == x);
        assert(enc_segments(ss.push(x), k + 1) =~= Seq::<u32>::empty());
        assert(enc_segments(ss.push(x), k) =~= enc_segment(x) + Seq::<u32>::empty());
        assert(enc_segments(ss, k) + enc_segment(x) =~= enc_segment(x));
        assert(enc_segment(x) + Seq::<u32>::empty() =~= enc_segment(x));
    } else {
        lemma_enc_segments_push(ss, x, k + 1);
        assert(ss.push(x)[k] == ss[k]);
        lemma_assoc(enc_segment(ss[k]), enc_segments(ss, k + 1), enc_segment(x));
    }
}

/// Two character-run encodings at one position have one length.
proof fn sd_str(ws: Seq<u32>, pos: int, a: Seq<char>, b: Seq<char>)
    requires
        a.len() <= u32::MAX,
        b.len() <= u32::MAX,
        is_enc_at(ws, pos, enc_str(a)),
        is_enc_at(ws, pos, enc_str(b)),
    ensures
        enc_str(a).len() == enc_str(b).len(),
{
    lemma_enc_index(ws, pos, enc_str(a), 0);
    lemma_enc_index(ws, pos, enc_str(b), 0);
}

/// Two posting encodings at one position have one length.
proof fn sd_posting(ws: Seq<u32>, pos: int, a: PostingModel, b: PostingModel)
    requires
        a.positions.len() <= u32::MAX,
        b.positions.len() <= u32::MAX,
        is_enc_at(ws, pos, enc_posting(a)),
        is_enc_at(ws, pos, enc_posting(b)),
    ensures
        enc_posting(a).len() == enc_posting(b).len(),
{
    lemma_enc_index(ws, pos, enc_posting(a), 1);
    lemma_enc_index(ws, pos, enc_posting(b), 1);
}

/// Two postings-list encodings of one remaining count at one position have
/// one length.
proof fn sd_postings(
    ws: Seq<u32>,
    pos: int,
    a: Seq<PostingModel>,
    ka: int,
    b: Seq<PostingModel>,
    kb: int,
)
    requires
        0 <= ka <= a.len(),
        0 <= kb <= b.len(),
        a.len() - ka == b.len() - kb,
        forall|i: int| 0 <= i < a.len() ==> (#[trigger] a[i]).positions.len() <= u32::MAX,
        forall|i: int| 0 <= i < b.len() ==> (#[trigger] b[i]).positions.len() <= u32::MAX,
        is_enc_at(ws, pos, enc_postings(a, ka)),
        is_enc_at(ws, pos, enc_postings(b, kb)),
    ensures
        enc_postings(a, ka).len() == enc_postings(b, kb).len(),
    decreases a.len() - ka,
{
    if ka < a.len() {
        lemma_enc_split(ws, pos, enc_posting(a[ka]), enc_postings(a, ka + 1));
        lemma_enc_split(ws, pos, enc_posting(b[kb]), enc_postings(b, kb + 1));
        sd_posting(ws, pos, a[ka], b[kb]);
        sd_postings(ws, pos + enc_posting(a[ka]).len(), a, ka + 1, b, kb + 1);
    }
}

/// Two dictionary-entry encodings at one position have one length.
proof fn sd_term(ws: Seq<u32>, pos: int, a: TermEntryModel, b: TermEntryModel)
    requires
        term_bounded(a),
        term_bounded(b),
        is_enc_at(ws, pos, enc_term(a)),
        is_enc_at(ws, pos, enc_term(b)),
    ensures
        enc_term(a).len() == enc_term(b).len(),
{
    assert(enc_term(a) =~= seq![a.field] + (enc_str(a.token) + seq![a.postings.len() as u32] + enc_postings(a.postings, 0)));
    assert(enc_term(b) =~= seq![b.field] + (enc_str(b.token) + seq![b.postings.len() as u32] + enc_postings(b.postings, 0)));
    lemma_enc_split(ws, pos, seq![a.field], enc_str(a.token) + seq![a.postings.len() as u32] + enc_postings(a.postings, 0));
    lemma_enc_split(ws, pos, seq![b.field], enc_str(b.token) + seq![b.postings.len() as u32] + enc_postings(b.postings, 0));
    let pa = pos + 1;
    assert(enc_str(a.token) + seq![a.postings.len() as u32] + enc_postings(a.postings, 0) =~= (
    enc_str(a.token) + seq![a.postings.len() as u32]) + enc_postings(a.postings, 0));
    assert(enc_str(b.token) + seq![b.postings.len() as u32] + enc_postings(b.postings, 0) =~= (
    enc_str(b.token) + seq![b.postings.len() as u32]) + enc_postings(b.postings, 0));
    lemma_enc_split(ws, pa, enc_str(a.token) + seq![a.postings.len() as u32], enc_postings(a.postings, 0));
    lemma_enc_split(ws, pa, enc_str(b.token) + seq![b.postings.len() as u32], enc_postings(b.postings, 0));
    lemma_enc_split(ws, pa, enc_str(a.token), seq![a.postings.len() as u32]);
    lemma_enc_split(ws, pa, enc_str(b.token), seq![b.postings.len() as u32]);
    sd_str(ws, pa, a.token, b.token);
    let pc = pa + enc_str(a.token).len();
    lemma_enc_index(ws, pc, seq![a.postings.len() as u32], 0);
    lemma_enc_index(ws, pc, seq![b.postings.len() as u32], 0);
    sd_postings(ws, pc + 1, a.postings, 0, b.postings, 0);
}

/// Two value-list encodings of one remaining count at one position have one
/// length.
proof fn sd_values(ws: Seq<u32>, pos: int, a: Seq<Seq<char>>, ka: int, b: Seq<Seq<char>>, kb: int)
    requires
        0 <= ka <= a.len(),
        0 <= kb <= b.len(),
        a.len() - ka == b.len() - kb,
        forall|i: int| 0 <= i < a.len() ==> (#[trigger] a[i]).len() <= u32::MAX,
        forall|i: int| 0 <= i < b.len() ==> (#[trigger] b[i]).len() <= u32::MAX,
        is_enc_at(ws, pos, enc_values(a, ka)),
        is_enc_at(ws, pos, enc_values(b, kb)),
    ensures
        enc_values(a, ka).len() == enc_values(b, kb).len(),
    decreases a.len() - ka,
{
    if ka < a.len() {
        lemma_enc_split(ws, pos, enc_str(a[ka]), enc_values(a, ka + 1));
        lemma_enc_split(ws, pos, enc_str(b[kb]), enc_values(b, kb + 1));
        sd_str(ws, pos, a[ka], b[kb]);
        sd_values(ws, pos + enc_str(a[ka]).len(), a, ka + 1, b, kb + 1);
    }
}

/// Two stored-field encodings at one position have one length.
proof fn sd_fieldvals(ws: Seq<u32>, pos: int, a: FieldValuesModel, b: FieldValuesModel)
    requires
        a.values.len() <= u32::MAX,
        b.values.len() <= u32::MAX,
        forall|i: int| 0 <= i < a.values.len() ==> (#[trigger] a.values[i]).len() <= u32::MAX,
        forall|i: int| 0 <= i < b.values.len() ==> (#[trigger] b.values[i]).len() <= u32::MAX,
        is_enc_at(ws, pos, enc_fieldvals(a)),
        is_enc_at(ws, pos, enc_fieldvals(b)),
    ensures
        enc_fieldvals(a).len() == enc_fieldvals(b).len(),
{
    lemma_enc_split(ws, pos, seq![a.field, a.values.len() as u32], enc_values(a.values, 0));
    lemma_enc_split(ws, pos, seq![b.field, b.values.len() as u32], enc_values(b.values, 0));
    sd_values(ws, pos + 2, a.values, 0, b.values, 0);
}

/// Two stored-field-list encodings of one remaining count at one position
/// have one length.
proof fn sd_doc_fields(
    ws: Seq<u32>,
    pos: int,
    a: Seq<FieldValuesModel>,
    ka: int,
    b: Seq<FieldValuesModel>,
    kb: int,
)
    requires
        0 <= ka <= a.len(),
        0 <= kb <= b.len(),
        a.len() - ka == b.len() - kb,
        forall|i: int|
            0 <= i < a.len() ==> (#[trigger] a[i]).values.len() <= u32::MAX && (forall|v: int|
                0 <= v < a[i].values.len() ==> (#[trigger] a[i].values[v]).len() <= u32::MAX),
        forall|i: int|
            0 <= i < b.len() ==> (#[trigger] b[i]).values.len() <= u32::MAX && (forall|v: int|
                0 <= v < b[i].values.len() ==> (#[trigger] b[i].values[v]).len() <= u32::MAX),
        is_enc_at(ws, pos, enc_doc_fields(a, ka)),
        is_enc_at(ws, pos, enc_doc_fields(b, kb)),
    ensures
        enc_doc_fields(a, ka).len() == enc_doc_fields(b, kb).len(),
    decreases a.len() - ka,
{
    if ka < a.len() {
        lemma_enc_split(ws, pos, enc_fieldvals(a[ka]), enc_doc_fields(a, ka + 1));
        lemma_enc_split(ws, pos, enc_fieldvals(b[kb]), enc_doc_fields(b, kb + 1));
        sd_fieldvals(ws, pos, a[ka], b[kb]);
        sd_doc_fields(ws, pos + enc_fieldvals(a[ka]).len(), a, ka + 1, b, kb + 1);
    }
}

/// Two stored-document encodings at one position have one length.
proof fn sd_doc(ws: Seq<u32>, pos: int, a: StoredDocModel, b: StoredDocModel)
    requires
        doc_bounded(a),
        doc_bounded(b),
        is_enc_at(ws, pos, enc_doc(a)),
        is_enc_at(ws, pos, enc_doc(b)),
    ensures
        enc_doc(a).len() == enc_doc(b).len(),
{
    lemma_enc_split(ws, pos, seq![a.fields.len() as u32], enc_doc_fields(a.fields, 0));
    lemma_enc_split(ws, pos, seq![b.fields.len() as u32], enc_doc_fields(b.fields, 0));
    lemma_enc_index(ws, pos, seq![a.fields.len() as u32], 0);
    lemma_enc_index(ws, pos, seq![b.fields.len() as u32], 0);
    sd_doc_fields(ws, pos + 1, a.fields, 0, b.fields, 0);
}

/// Two dictionary encodings of one remaining count at one position have one
/// length.
proof fn sd_terms(ws: Seq<u32>, pos: int, a: Seq<TermEntryModel>, ka: int, b: Seq<TermEntryModel>, kb: int)
    requires
        0 <= ka <= a.len(),
        0 <= kb <= b.len(),
        a.len() - ka == b.len() - kb,
        forall|i: int| 0 <= i < a.len() ==> term_bounded(#[trigger] a[i]),
        forall|i: int| 0 <= i < b.len() ==> term_bounded(#[trigger] b[i]),
        is_enc_at(ws, pos, enc_terms(a, ka)),
        is_enc_at(ws, pos, enc_terms(b, kb)),
    ensures
        enc_terms(a, ka).len() == enc_terms(b, kb).len(),
    decreases a.len() - ka,
{
    if ka < a.len() {
        lemma_enc_split(ws, pos, enc_term(a[ka]), enc_terms(a, ka + 1));
        lemma_enc_split(ws, pos, enc_term(b[kb]), enc_terms(b, kb + 1));
        sd_term(ws, pos, a[ka], b[kb]);
        sd_terms(ws, pos + enc_term(a[ka]).len(), a, ka + 1, b, kb + 1);
    }
}

/// Two stored-block encodings of one remaining count at one position have
/// one length.
proof fn sd_docs(ws: Seq<u32>, pos: int, a: Seq<StoredDocModel>, ka: int, b: Seq<StoredDocModel>, kb: int)
    requires
        0 <= ka <= a.len(),
        0 <= kb <= b.len(),
        a.len() - ka == b.len() - kb,
        forall|i: int| 0 <= i < a.len() ==> doc_bounded(#[trigger] a[i]),
        forall|i: int| 0 <= i < b.len() ==> doc_bounded(#[trigger] b[i]),
        is_enc_at(ws, pos, enc_docs(a, ka)),
        is_enc_at(ws, pos, enc_docs(b, kb)),
    ensures
        enc_docs(a, ka).len() == enc_docs(b, kb).len(),
    decreases a.len() - ka,
{
    if ka < a.len() {
        lemma_enc_split(ws, pos, enc_doc(a[ka]), enc_docs(a, ka + 1));
        lemma_enc_split(ws, pos, enc_doc(b[kb]), enc_docs(b, kb + 1));
        sd_doc(ws, pos, a[ka], b[kb]);
        sd_docs(ws, pos + enc_doc(a[ka]).len(), a, ka + 1, b, kb + 1);
    }
}

/// Two segment encodings at one position have one length.
proof fn sd_segment(ws: Seq<u32>, pos: int, a: SegmentModel, b: SegmentModel)
    requires
        seg_bounded(a),
        seg_bounded(b),
        is_enc_at(ws, pos, enc_segment(a)),
        is_enc_at(ws, pos, enc_segment(b)),
    ensures
        enc_segment(a).len() == enc_segment(b).len(),
{
    lemma_assoc(seq![a.terms.len() as u32], enc_terms(a.terms, 0), seq![a.docs.len() as u32]);
    lemma_assoc(seq![b.terms.len() as u32], enc_terms(b.terms, 0), seq![b.docs.len() as u32]);
    assert(enc_segment(a) =~= seq![a.terms.len() as u32] + (enc_terms(a.terms, 0) + (seq![
        a.docs.len() as u32,
    ] + enc_docs(a.docs, 0))));
    assert(enc_segment(b) =~= seq![b.terms.len() as u32] + (enc_terms(b.terms, 0) + (seq![
        b.docs.len() as u32,
    ] + enc_docs(b.docs, 0))));
    lemma_enc_split(ws, pos, seq![a.terms.len() as u32], enc_terms(a.terms, 0) + (seq![
        a.docs.len() as u32,
    ] + enc_docs(a.docs, 0)));
    lemma_enc_split(ws, pos, seq![b.terms.len() as u32], enc_terms(b.terms, 0) + (seq![
        b.docs.len() as u32,
    ] + enc_docs(b.docs, 0)));
    lemma_enc_index(ws, pos, seq![a.terms.len() as u32], 0);
    lemma_enc_index(ws, pos, seq![b.terms.len() as u32], 0);
    lemma_enc_split(ws, pos + 1, enc_terms(a.terms, 0), seq![a.docs.len() as u32] + enc_docs(a.docs, 0));
    lemma_enc_split(ws, pos + 1, enc_terms(b.terms, 0), seq![b.docs.len() as u32] + enc_docs(b.docs, 0));
    sd_terms(ws, pos + 1, a.terms, 0, b.terms, 0);
    let pd = pos + 1 + enc_terms(a.terms, 0).len();
    lemma_enc_split(ws, pd, seq![a.docs.len() as u32], enc_docs(a.docs, 0));
    lemma_enc_split(ws, pd, seq![b.docs.len() as u32], enc_docs(b.docs, 0));
    lemma_enc_index(ws, pd, seq![a.docs.len() as u32], 0);
    lemma_enc_index(ws, pd, seq![b.docs.len() as u32], 0);
    sd_docs(ws, pd + 1, a.docs, 0, b.docs, 0);
}

/// Read one word, if any is left.
#[verifier::loop_isolation(false)]
fn rd(ws: &Vec<u32>, pos: usize) -> (r: Option<u32>)
    ensures
        r is Some ==> pos < ws@.len() && r->0 == ws@[pos as int],
        r is None ==> pos >= ws@.len(),
{
    if pos < ws.len() {
        Some(ws[pos])
    } else {
        None
    }
}

/// Two field-declaration encodings at one position have one length.
proof fn sd_fielddef(ws: Seq<u32>, pos: int, a: FieldDefModel, b: FieldDefModel)
    requires
        a.name.len() <= u32::MAX,
        b.name.len() <= u32::MAX,
        is_enc_at(ws, pos, enc_fielddef(a)),
        is_enc_at(ws, pos, enc_fielddef(b)),
    ensures
        enc_fielddef(a).len() == enc_fielddef(b).len(),
{
    lemma_enc_split(ws, pos, enc_str(a.name), seq![enc_bool(a.indexed), enc_bool(a.stored)]);
    lemma_enc_split(ws, pos, enc_str(b.name), seq![enc_bool(b.indexed), enc_bool(b.stored)]);
    sd_str(ws, pos, a.name, b.name);
}

/// Two schema encodings of one remaining count at one position have one
/// length.
proof fn sd_schema(ws: Seq<u32>, pos: int, a: Seq<FieldDefModel>, ka: int, b: Seq<FieldDefModel>, kb: int)
    requires
        0 <= ka <= a.len(),
        0 <= kb <= b.len(),
        a.len() - ka == b.len() - kb,
        forall|i: int| 0 <= i < a.len() ==> (#[trigger] a[i]).name.len() <= u32::MAX,
        forall|i: int| 0 <= i < b.len() ==> (#[trigger] b[i]).name.len() <= u32::MAX,
        is_enc_at(ws, pos, enc_schema(a, ka)),
        is_enc_at(ws, pos, enc_schema(b, kb)),
    ensures
        enc_schema(a, ka).len() == enc_schema(b, kb).len(),
    decreases a.len() - ka,
{
    if ka < a.len() {
        lemma_enc_split(ws, pos, enc_fielddef(a[ka]), enc_schema(a, ka + 1));
        lemma_enc_split(ws, pos, enc_fielddef(b[kb]), enc_schema(b, kb + 1));
        sd_fielddef(ws, pos, a[ka], b[kb]);
        sd_schema(ws, pos + enc_fielddef(a[ka]).len(), a, ka + 1, b, kb + 1);
    }
}

/// Two segment-list encodings of one remaining count at one position have
/// one length.
proof fn sd_segments(ws: Seq<u32>, pos: int, a: Seq<SegmentModel>, ka: int, b: Seq<SegmentModel>, kb: int)
    requires
        0 <= ka <= a.len(),
        0 <= kb <= b.len(),
        a.len() - ka == b.len() - kb,
        forall|i: int| 0 <= i < a.len() ==> seg_bounded(#[trigger] a[i]),
        forall|i: int| 0 <= i < b.len() ==> seg_bounded(#[trigger] b[i]),
        is_enc_at(ws, pos, enc_segments(a, ka)),
        is_enc_at(ws, pos, enc_segments(b, kb)),
    ensures
        enc_segments(a, ka).len() == enc_segments(b, kb).len(),
    decreases a.len() - ka,
{
    if ka < a.len() {
        lemma_enc_split(ws, pos, enc_segment(a[ka]), enc_segments(a, ka + 1));
        lemma_enc_split(ws, pos, enc_segment(b[kb]), enc_segments(b, kb + 1));
        sd_segment(ws, pos, a[ka], b[kb]);
        sd_segments(ws, pos + enc_segment(a[ka]).len(), a, ka + 1, b, kb + 1);
    }
}

/// A char's code point lies in the ranges `char::from_u32` accepts.
proof fn lemma_char_scalar_range(c: char)
    ensures
        ((c as u32) < 0xD800) || (0xE000 <= (c as u32) && (c as u32) <= 0x10FFFF),
{
    vstd::utf8::char_is_scalar(c);
}

/// Parse a length-prefixed character run. A parse is exactly an encoding:
/// it consumes the encoding of what it returns, and it succeeds whenever an
/// encoding stands at the position.
#[verifier::loop_isolation(false)]
fn parse_chars(ws: &Vec<u32>, pos: usize) -> (r: Option<(Vec<char>, usize)>)
    ensures
        r is Some ==> {
            &&& pos < (r->0).1 <= ws@.len()
            &&& (r->0).0@.len() <= u32::MAX
            &&& ws@.subrange(pos as int, (r->0).1 as int) == enc_str((r->0).0@)
        },
        (exists|m: Seq<char>| m.len() <= u32::MAX && is_enc_at(ws@, pos as int, enc_str(m)))
            ==> r is Some,
{
    let ghost hex = exists|m: Seq<char>| m.len() <= u32::MAX && is_enc_at(ws@, pos as int, enc_str(m));
    let ghost hm: Seq<char> = if hex {
        choose|m: Seq<char>| m.len() <= u32::MAX && is_enc_at(ws@, pos as int, enc_str(m))
    } else {
        Seq::<char>::empty()
    };
    proof {
        if hex {
            lemma_enc_index(ws@, pos as int, enc_str(hm), 0);
        }
    }
    let n = match rd(ws, pos) {
        Some(w) => w,
        None => {
            proof {
                if hex {
                    assert(false);
                }
            }
            return None;
        },
    };
    let cap = ws.len();
    let mut out: Vec<char> = Vec::new();
    let mut p = pos + 1;
    let mut i: u32 = 0;
    while i < n
        invariant
            pos < p <= cap == ws@.len(),
            p == pos + 1 + i,
            i <= n,
            out@.len() == i,
            ws@[pos as int] == n,
            forall|j: int| 0 <= j < i ==> ws@[pos + 1 + j] == (#[trigger] out@[j]) as u32,
            hex ==> n == hm.len() as u32 && hm.len() <= u32::MAX && is_enc_at(
                ws@,
                pos as int,
                enc_str(hm),
            ),
        decreases n - i,
    {
        proof {
            if hex {
                lemma_enc_index(ws@, pos as int, enc_str(hm), 1 + i);
            }
        }
        let w = match rd(ws, p) {
            Some(w) => w,
            None => {
                proof {
                    if hex {
                        assert(pos + 1 + i < pos + enc_str(hm).len());
                        assert(false);
                    }
                }
                return None;
            },
        };
        let c = match char_from_u32(w) {
            Some(c) => c,
            None => {
                proof {
                    if hex {
                        assert(w == hm[i as int] as u32);
                        lemma_char_scalar_range(hm[i as int]);
                        assert(false);
                    }
                }
                return None;
            },
        };
        out.push(c);
        p = p + 1;
        i = i + 1;
    }
    proof {
        let chunk = ws@.subrange(pos as int, p as int);
        assert(chunk.len() == enc_str(out@).len());
        assert forall|j: int| 0 <= j < chunk.len() implies chunk[j] == enc_str(out@)[j] by {
            assert(chunk[j] == ws@[pos + j]);
            if j > 0 {
                assert(ws@[pos + 1 + (j - 1)] == out@[j - 1] as u32);
            }
        }
        assert(ws@.subrange(pos as int, p as int) =~= enc_str(out@));
    }
    Some((out, p))
}

/// Parse a length-prefixed character run into an owned string.
#[verifier::loop_isolation(false)]
fn parse_string(ws: &Vec<u32>, pos: usize) -> (r: Option<(String, usize)>)
    ensures
        r is Some ==> {
            &&& pos < (r->0).1 <= ws@.len()
            &&& (r->0).0@.len() <= u32::MAX
            &&& ws@.subrange(pos as int, (r->0).1 as int) == enc_str((r->0).0@)
        },
        (exists|m: Seq<char>| m.len() <= u32::MAX && is_enc_at(ws@, pos as int, enc_str(m)))
            ==> r is Some,
{
    let (chars, p) = match parse_chars(ws, pos) {
        Some(x) => x,
        None => {
            return None;
        },
    };
    let mut out = String::new();
    let n = chars.len();
    let mut i: usize = 0;
    while i < n
        invariant
            0 <= i <= n == chars@.len(),
            out@ =~= chars@.subrange(0, i as int),
        decreases n - i,
    {
        crate::strutil::push_char(&mut out, chars[i]);
        i = i + 1;
    }
    proof {
        assert(out@ =~= chars@);
    }
    Some((out, p))
}

/// Parse one dictionary entry: a parse is exactly an encoding, and it
/// succeeds whenever an encoding stands at the position.
#[verifier::loop_isolation(false)]
fn parse_term(ws: &Vec<u32>, pos: usize) -> (r: Option<(TermEntry, usize)>)
    ensures
        r is Some ==> {
            &&& pos < (r->0).1 <= ws@.len()
            &&& term_bounded((r->0).0.deep_view())
            &&& ws@.subrange(pos as int, (r->0).1 as int) == enc_term((r->0).0.deep_view())
        },
        (exists|m: TermEntryModel| term_bounded(m) && is_enc_at(ws@, pos as int, enc_term(m)))
            ==> r is Some,
{
    let ghost hex = exists|m: TermEntryModel| term_bounded(m) && is_enc_at(ws@, pos as int, enc_term(m));
    let ghost hm: TermEntryModel = if hex {
        choose|m: TermEntryModel| term_bounded(m) && is_enc_at(ws@, pos as int, enc_term(m))
    } else {
        vstd::pervasive::arbitrary()
    };
    proof {
        if hex {
            assert(enc_term(hm) =~= seq![hm.field] + (enc_str(hm.token) + (seq![
                hm.postings.len() as u32,
            ] + enc_postings(hm.postings, 0))));
            lemma_enc_split(
                ws@,
                pos as int,
                seq![hm.field],
                enc_str(hm.token) + (seq![hm.postings.len() as u32] + enc_postings(hm.postings, 0)),
            );
            lemma_enc_index(ws@, pos as int, seq![hm.field], 0);
            lemma_enc_split(
                ws@,
                pos + 1,
                enc_str(hm.token),
                seq![hm.postings.len() as u32] + enc_postings(hm.postings, 0),
            );
        }
    }
    let cap = ws.len();
    let field = match rd(ws, pos) {
        Some(w) => w,
        None => {
            proof {
                if hex {
                    assert(false);
                }
            }
            return None;
        },
    };
    let (token, ptok) = match parse_chars(ws, pos + 1) {
        Some(x) => x,
        None => {
            proof {
                if hex {
                    assert(false);
                }
            }
            return None;
        },
    };
    proof {
        if hex {
            sd_str(ws@, pos + 1, token@, hm.token);
            assert(ptok == pos + 1 + enc_str(hm.token).len());
            lemma_enc_split(
                ws@,
                ptok as int,
                seq![hm.postings.len() as u32],
                enc_postings(hm.postings, 0),
            );
            lemma_enc_index(ws@, ptok as int, seq![hm.postings.len() as u32], 0);
        }
    }
    let np = match rd(ws, ptok) {
        Some(w) => w,
        None => {
            proof {
                if hex {
                    assert(false);
                }
            }
            return None;
        },
    };
    let pstart = ptok + 1;
    let mut p = pstart;
    let mut postings: Vec<Posting> = Vec::new();
    let mut i: u32 = 0;
    proof {
        assert(ws@.subrange(pstart as int, p as int) =~= enc_postings(
            postings.deep_view(),
            0,
        ));
    }
    while i < np
        invariant
            pos < pstart <= p <= cap == ws@.len(),
            i <= np,
            postings@.len() == i,
            ws@.subrange(pstart as int, p as int) == enc_postings(postings.deep_view(), 0),
            forall|j: int|
                0 <= j < postings@.len() ==> (#[trigger] postings.deep_view()[j]).positions.len()
                    <= u32::MAX,
            hex ==> i <= hm.postings.len() && np == hm.postings.len() as u32 && is_enc_at(
                ws@,
                p as int,
                enc_postings(hm.postings, i as int),
            ),
        decreases np - i,
    {
        proof {
            if hex {
                let hmp = hm.postings[i as int];
                lemma_enc_split(
                    ws@,
                    p as int,
                    enc_posting(hmp),
                    enc_postings(hm.postings, i + 1),
                );
                assert(enc_posting(hmp) =~= seq![hmp.doc_id] + (seq![
                    hmp.positions.len() as u32,
                ] + hmp.positions));
                lemma_enc_split(
                    ws@,
                    p as int,
                    seq![hmp.doc_id],
                    seq![hmp.positions.len() as u32] + hmp.positions,
                );
                lemma_enc_index(ws@, p as int, seq![hmp.doc_id], 0);
                lemma_enc_split(ws@, p + 1, seq![hmp.positions.len() as u32], hmp.positions);
                lemma_enc_index(ws@, p + 1, seq![hmp.positions.len() as u32], 0);
            }
        }
        let doc_id = match rd(ws, p) {
            Some(w) => w,
            None => {
                proof {
                    if hex {
                        assert(false);
                    }
                }
                return None;
            },
        };
        let npos = match rd(ws, p + 1) {
            Some(w) => w,
            None => {
                proof {
                    if hex {
                        assert(false);
                    }
                }
                return None;
            },
        };
        let mut pp = p + 2;
        let mut positions: Vec<u32> = Vec::new();
        let mut q: u32 = 0;
        while q < npos
            invariant
                p + 2 <= pp <= cap == ws@.len(),
                pp == p + 2 + q,
                q <= npos,
                positions@.len() == q,
                forall|j: int| 0 <= j < q ==> ws@[p + 2 + j] == (#[trigger] positions@[j]),
                hex ==> i < hm.postings.len() && is_enc_at(
                    ws@,
                    p + 2,
                    hm.postings[i as int].positions,
                ) && npos == hm.postings[i as int].positions.len() as u32,
            decreases npos - q,
        {
            let w = match rd(ws, pp) {
                Some(w) => w,
                None => {
                    proof {
                        if hex {
                            lemma_enc_index(ws@, p + 2, hm.postings[i as int].positions, q as int);
                            assert(false);
                        }
                    }
                    return None;
                },
            };
            positions.push(w);
            pp = pp + 1;
            q = q + 1;
        }
        let ghost dv0 = postings.deep_view();
        let ghost pold = p as int;
        postings.push(Posting { doc_id, positions });
        p = pp;
        proof {
            let x = PostingModel { doc_id, positions: postings@[i as int].positions@ };
            assert(postings.deep_view() =~= dv0.push(x));
            let chunk = ws@.subrange(pold, p as int);
            assert(chunk.len() == enc_posting(x).len());
            assert forall|j: int| 0 <= j < chunk.len() implies chunk[j] == enc_posting(x)[j] by {
                assert(chunk[j] == ws@[pold + j]);
                if j >= 2 {
                    assert(ws@[pold + 2 + (j - 2)] == x.positions[j - 2]);
                }
            }
            assert(chunk =~= enc_posting(x));
            lemma_enc_postings_push(dv0, x, 0);
            assert(ws@.subrange(pstart as int, p as int) =~= ws@.subrange(pstart as int, pold)
                + chunk);
            if hex {
                assert(p as int == pold + enc_posting(hm.postings[i as int]).len());
            }
        }
        i = i + 1;
    }
    let entry = TermEntry { field, token, postings };
    proof {
        let dv = entry.deep_view();
        assert(dv.postings == entry.postings.deep_view());
        let chunk = ws@.subrange(pos as int, p as int);
        assert(chunk.len() == enc_term(dv).len());
        assert forall|j: int| 0 <= j < chunk.len() implies chunk[j] == enc_term(dv)[j] by {
            assert(chunk[j] == ws@[pos + j]);
            let tl = enc_str(dv.token).len();
            if 1 <= j < 1 + tl {
                assert(ws@.subrange(pos + 1, ptok as int)[j - 1] == ws@[pos + j]);
            } else if j > 1 + tl {
                assert(ws@.subrange(pstart as int, p as int)[j - (2 + tl)] == ws@[pos + j]);
            }
        }
        assert(chunk =~= enc_term(dv));
    }
    Some((entry, p))
}

/// Parse one stored document: a parse is exactly an encoding, and it
/// succeeds whenever an encoding stands at the position.
#[verifier::loop_isolation(false)]
#[verifier::rlimit(60)]
fn parse_doc(ws: &Vec<u32>, pos: usize) -> (r: Option<(StoredDoc, usize)>)
    ensures
        r is Some ==> {
            &&& pos < (r->0).1 <= ws@.len()
            &&& doc_bounded((r->0).0.deep_view())
            &&& ws@.subrange(pos as int, (r->0).1 as int) == enc_doc((r->0).0.deep_view())
        },
        (exists|m: StoredDocModel| doc_bounded(m) && is_enc_at(ws@, pos as int, enc_doc(m)))
            ==> r is Some,
{
    let ghost hex = exists|m: StoredDocModel| doc_bounded(m) && is_enc_at(ws@, pos as int, enc_doc(m));
    let ghost hm: StoredDocModel = if hex {
        choose|m: StoredDocModel| doc_bounded(m) && is_enc_at(ws@, pos as int, enc_doc(m))
    } else {
        vstd::pervasive::arbitrary()
    };
    proof {
        if hex {
            lemma_enc_split(ws@, pos as int, seq![hm.fields.len() as u32], enc_doc_fields(hm.fields, 0));
            lemma_enc_index(ws@, pos as int, seq![hm.fields.len() as u32], 0);
        }
    }
    let cap = ws.len();
    let nf = match rd(ws, pos) {
        Some(w) => w,
        None => {
            proof {
                if hex {
                    assert(false);
                }
            }
            return None;
        },
    };
    let pstart = pos + 1;
    let mut p = pstart;
    let mut fields: Vec<FieldValues> = Vec::new();
    let mut i: u32 = 0;
    proof {
        assert(ws@.subrange(pstart as int, p as int) =~= enc_doc_fields(fields.deep_view(), 0));
    }
    while i < nf
        invariant
            pos < pstart <= p <= cap == ws@.len(),
            i <= nf,
            fields@.len() == i,
            ws@.subrange(pstart as int, p as int) == enc_doc_fields(fields.deep_view(), 0),
            forall|j: int|
                0 <= j < fields@.len() ==> (#[trigger] fields.deep_view()[j]).values.len()
                    <= u32::MAX && (forall|v: int|
                    0 <= v < fields.deep_view()[j].values.len()
                        ==> (#[trigger] fields.deep_view()[j].values[v]).len() <= u32::MAX),
            hex ==> i <= hm.fields.len() && nf == hm.fields.len() as u32 && is_enc_at(
                ws@,
                p as int,
                enc_doc_fields(hm.fields, i as int),
            ),
        decreases nf - i,
    {
        proof {
            if hex {
                let hmf = hm.fields[i as int];
                lemma_enc_split(ws@, p as int, enc_fieldvals(hmf), enc_doc_fields(hm.fields, i + 1));
                assert(enc_fieldvals(hmf) =~= seq![hmf.field] + (seq![hmf.values.len() as u32]
                    + enc_values(hmf.values, 0)));
                lemma_enc_split(
                    ws@,
                    p as int,
                    seq![hmf.field],
                    seq![hmf.values.len() as u32] + enc_values(hmf.values, 0),
                );
                lemma_enc_index(ws@, p as int, seq![hmf.field], 0);
                lemma_enc_split(ws@, p + 1, seq![hmf.values.len() as u32], enc_values(hmf.values, 0));
                lemma_enc_index(ws@, p + 1, seq![hmf.values.len() as u32], 0);
            }
        }
        let field = match rd(ws, p) {
            Some(w) => w,
            None => {
                proof {
                    if hex {
                        assert(false);
                    }
                }
                return None;
            },
        };
        let nv = match rd(ws, p + 1) {
            Some(w) => w,
            None => {
                proof {
                    if hex {
                        assert(false);
                    }
                }
                return None;
            },
        };
        let ghost vstart = p + 2;
        let mut pp = p + 2;
        let mut values: Vec<String> = Vec::new();
        let mut v: u32 = 0;
        proof {
            assert(ws@.subrange(vstart, pp as int) =~= enc_values(values.deep_view(), 0));
        }
        while v < nv
            invariant
                p + 2 <= pp <= cap == ws@.len(),
                vstart == p + 2,
                v <= nv,
                values@.len() == v,
                ws@.subrange(vstart, pp as int) == enc_values(values.deep_view(), 0),
                forall|j: int|
                    0 <= j < values@.len() ==> (#[trigger] values.deep_view()[j]).len()
                        <= u32::MAX,
                hex ==> i < hm.fields.len() && nv == hm.fields[i as int].values.len() as u32
                    && v <= hm.fields[i as int].values.len() && is_enc_at(
                    ws@,
                    pp as int,
                    enc_values(hm.fields[i as int].values, v as int),
                ) && pp as int == p + 2 + enc_values(hm.fields[i as int].values, 0).len()
                    - enc_values(hm.fields[i as int].values, v as int).len(),
            decreases nv - v,
        {
            proof {
                if hex {
                    lemma_enc_split(
                        ws@,
                        pp as int,
                        enc_str(hm.fields[i as int].values[v as int]),
                        enc_values(hm.fields[i as int].values, v + 1),
                    );
                }
            }
            let (sv, p2) = match parse_string(ws, pp) {
                Some(x) => x,
                None => {
                    proof {
                        if hex {
                            assert(false);
                        }
                    }
                    return None;
                },
            };
            proof {
                if hex {
                    sd_str(ws@, pp as int, sv@, hm.fields[i as int].values[v as int]);
                }
            }
            let ghost dv0 = values.deep_view();
            let ghost ppold = pp as int;
            values.push(sv);
            pp = p2;
            proof {
                assert(values.deep_view() =~= dv0.push(values@[v as int]@));
                lemma_enc_values_push(dv0, values@[v as int]@, 0);
                assert(ws@.subrange(vstart, pp as int) =~= ws@.subrange(vstart, ppold)
                    + ws@.subrange(ppold, pp as int));
            }
            v = v + 1;
        }
        let ghost dv0 = fields.deep_view();
        let ghost pold = p as int;
        fields.push(FieldValues { field, values });
        p = pp;
        proof {
            let x = FieldValuesModel { field, values: fields@[i as int].values.deep_view() };
            assert(fields.deep_view() =~= dv0.push(x));
            let chunk = ws@.subrange(pold, p as int);
            assert(chunk.len() == enc_fieldvals(x).len());
            assert forall|j: int| 0 <= j < chunk.len() implies chunk[j] == enc_fieldvals(x)[j] by {
                assert(chunk[j] == ws@[pold + j]);
                if j >= 2 {
                    assert(ws@.subrange(pold + 2, p as int)[j - 2] == ws@[pold + j]);
                }
            }
            assert(chunk =~= enc_fieldvals(x));
            lemma_enc_doc_fields_push(dv0, x, 0);
            assert(ws@.subrange(pstart as int, p as int) =~= ws@.subrange(pstart as int, pold)
                + chunk);
            if hex {
                assert(enc_values(hm.fields[i as int].values, nv as int)
                    =~= Seq::<u32>::empty());
                assert(p as int == pold + enc_fieldvals(hm.fields[i as int]).len());
            }
        }
        i = i + 1;
    }
    let d = StoredDoc { fields };
    proof {
        let dv = d.deep_view();
        let chunk = ws@.subrange(pos as int, p as int);
        assert(chunk.len() == enc_doc(dv).len());
        assert forall|j: int| 0 <= j < chunk.len() implies chunk[j] == enc_doc(dv)[j] by {
            assert(chunk[j] == ws@[pos + j]);
            if j >= 1 {
                assert(ws@.subrange(pstart as int, p as int)[j - 1] == ws@[pos + j]);
            }
        }
        assert(chunk =~= enc_doc(dv));
    }
    Some((d, p))
}

/// Parse one segment: a parse is exactly an encoding, and it succeeds
/// whenever an encoding stands at the position.
#[verifier::loop_isolation(false)]
#[verifier::rlimit(60)]
fn parse_segment(ws: &Vec<u32>, pos: usize) -> (r: Option<(Segment, usize)>)
    ensures
        r is Some ==> {
            &&& pos < (r->0).1 <= ws@.len()
            &&& seg_bounded((r->0).0.deep_view())
            &&& ws@.subrange(pos as int, (r->0).1 as int) == enc_segment((r->0).0.deep_view())
        },
        (exists|m: SegmentModel| seg_bounded(m) && is_enc_at(ws@, pos as int, enc_segment(m)))
            ==> r is Some,
{
    let ghost hex = exists|m: SegmentModel| seg_bounded(m) && is_enc_at(ws@, pos as int, enc_segment(m));
    let ghost hm: SegmentModel = if hex {
        choose|m: SegmentModel| seg_bounded(m) && is_enc_at(ws@, pos as int, enc_segment(m))
    } else {
        vstd::pervasive::arbitrary()
    };
    let ghost tail = seq![hm.docs.len() as u32] + enc_docs(hm.docs, 0);
    proof {
        if hex {
            assert(enc_segment(hm) =~= seq![hm.terms.len() as u32] + (enc_terms(hm.terms, 0)
                + tail));
            lemma_enc_split(
                ws@,
                pos as int,
                seq![hm.terms.len() as u32],
                enc_terms(hm.terms, 0) + tail,
            );
            lemma_enc_index(ws@, pos as int, seq![hm.terms.len() as u32], 0);
        }
    }
    let cap = ws.len();
    let nt = match rd(ws, pos) {
        Some(w) => w,
        None => {
            proof {
                if hex {
                    assert(false);
                }
            }
            return None;
        },
    };
    let tstart = pos + 1;
    let mut p = tstart;
    let mut terms: Vec<TermEntry> = Vec::new();
    let mut i: u32 = 0;
    proof {
        assert(ws@.subrange(tstart as int, p as int) =~= enc_terms(terms.deep_view(), 0));
    }
    while i < nt
        invariant
            pos < tstart <= p <= cap == ws@.len(),
            i <= nt,
            terms@.len() == i,
            ws@.subrange(tstart as int, p as int) == enc_terms(terms.deep_view(), 0),
            forall|j: int| 0 <= j < terms@.len() ==> term_bounded(#[trigger] terms.deep_view()[j]),
            hex ==> i <= hm.terms.len() && nt == hm.terms.len() as u32 && is_enc_at(
                ws@,
                p as int,
                enc_terms(hm.terms, i as int) + tail,
            ),
        decreases nt - i,
    {
        proof {
            if hex {
                assert(enc_terms(hm.terms, i as int) + tail =~= enc_term(hm.terms[i as int]) + (
                enc_terms(hm.terms, i + 1) + tail));
                lemma_enc_split(
                    ws@,
                    p as int,
                    enc_term(hm.terms[i as int]),
                    enc_terms(hm.terms, i + 1) + tail,
                );
            }
        }
        let (t, p2) = match parse_term(ws, p) {
            Some(x) => x,
            None => {
                proof {
                    if hex {
                        assert(false);
                    }
                }
                return None;
            },
        };
        proof {
            if hex {
                assert(is_enc_at(ws@, p as int, enc_term(t.deep_view())));
                sd_term(ws@, p as int, t.deep_view(), hm.terms[i as int]);
            }
        }
        let ghost dv0 = terms.deep_view();
        let ghost pold = p as int;
        terms.push(t);
        p = p2;
        proof {
            assert(terms.deep_view() =~= dv0.push(terms@[i as int].deep_view()));
            lemma_enc_terms_push(dv0, terms@[i as int].deep_view(), 0);
            assert(ws@.subrange(tstart as int, p as int) =~= ws@.subrange(tstart as int, pold)
                + ws@.subrange(pold, p as int));
        }
        i = i + 1;
    }
    proof {
        if hex {
            assert(enc_terms(hm.terms, nt as int) =~= Seq::<u32>::empty());
            assert(enc_terms(hm.terms, nt as int) + tail =~= tail);
            lemma_enc_split(ws@, p as int, seq![hm.docs.len() as u32], enc_docs(hm.docs, 0));
            lemma_enc_index(ws@, p as int, seq![hm.docs.len() as u32], 0);
        }
    }
    let ghost ptok = p as int;
    let nd = match rd(ws, p) {
        Some(w) => w,
        None => {
            proof {
                if hex {
                    assert(false);
                }
            }
            return None;
        },
    };
    let dstart = p + 1;
    let mut p2 = dstart;
    let mut docs: Vec<StoredDoc> = Vec::new();
    let mut j: u32 = 0;
    proof {
        assert(ws@.subrange(dstart as int, p2 as int) =~= enc_docs(docs.deep_view(), 0));
    }
    while j < nd
        invariant
            pos < dstart <= p2 <= cap == ws@.len(),
            dstart == ptok + 1,
            j <= nd,
            docs@.len() == j,
            ws@.subrange(dstart as int, p2 as int) == enc_docs(docs.deep_view(), 0),
            forall|k: int| 0 <= k < docs@.len() ==> doc_bounded(#[trigger] docs.deep_view()[k]),
            hex ==> j <= hm.docs.len() && nd == hm.docs.len() as u32 && is_enc_at(
                ws@,
                p2 as int,
                enc_docs(hm.docs, j as int),
            ),
        decreases nd - j,
    {
        proof {
            if hex {
                lemma_enc_split(
                    ws@,
                    p2 as int,
                    enc_doc(hm.docs[j as int]),
                    enc_docs(hm.docs, j + 1),
                );
            }
        }
        let (d, p3) = match parse_doc(ws, p2) {
            Some(x) => x,
            None => {
                proof {
                    if hex {
                        assert(false);
                    }
                }
                return None;
            },
        };
        proof {
            if hex {
                assert(is_enc_at(ws@, p2 as int, enc_doc(d.deep_view())));
                sd_doc(ws@, p2 as int, d.deep_view(), hm.docs[j as int]);
            }
        }
        let ghost dv0 = docs.deep_view();
        let ghost pold = p2 as int;
        docs.push(d);
        p2 = p3;
        proof {
            assert(docs.deep_view() =~= dv0.push(docs@[j as int].deep_view()));
            lemma_enc_docs_push(dv0, docs@[j as int].deep_view(), 0);
            assert(ws@.subrange(dstart as int, p2 as int) =~= ws@.subrange(dstart as int, pold)
                + ws@.subrange(pold, p2 as int));
        }
        j = j + 1;
    }
    let seg = Segment { terms, docs };
    proof {
        let dv = seg.deep_view();
        let chunk = ws@.subrange(pos as int, p2 as int);
        assert(chunk.len() == enc_segment(dv).len());
        let tl = enc_terms(dv.terms, 0).len();
        assert forall|k: int| 0 <= k < chunk.len() implies chunk[k] == enc_segment(dv)[k] by {
            assert(chunk[k] == ws@[pos + k]);
            if 1 <= k < 1 + tl {
                assert(ws@.subrange(tstart as int, ptok)[k - 1] == ws@[pos + k]);
            } else if k > 1 + tl {
                assert(ws@.subrange(dstart as int, p2 as int)[k - (2 + tl)] == ws@[pos + k]);
            }
        }
        assert(chunk =~= enc_segment(dv));
    }
    Some((seg, p2))
}

/// Parse a run of `nf` field declarations: a parse is exactly an encoding,
/// and it succeeds whenever one of that count stands at the position.
#[verifier::loop_isolation(false)]
#[verifier::rlimit(60)]
fn parse_fields(ws: &Vec<u32>, pos: usize, nf: u32) -> (r: Option<(Vec<FieldDef>, usize)>)
    ensures
        r is Some ==> {
            &&& pos <= (r->0).1 <= ws@.len()
            &&& (r->0).0@.len() == nf
            &&& forall|j: int|
                0 <= j < (r->0).0@.len() ==> (#[trigger] (r->0).0.deep_view()[j]).name.len()
                    <= u32::MAX
            &&& ws@.subrange(pos as int, (r->0).1 as int) == enc_schema((r->0).0.deep_view(), 0)
        },
        (exists|fs: Seq<FieldDefModel>|
            fs.len() == nf && (forall|i: int|
                0 <= i < fs.len() ==> (#[trigger] fs[i]).name.len() <= u32::MAX) && is_enc_at(
                ws@,
                pos as int,
                enc_schema(fs, 0),
            )) ==> r is Some,
{
    let ghost hex = exists|fs: Seq<FieldDefModel>|
        fs.len() == nf && (forall|i: int|
            0 <= i < fs.len() ==> (#[trigger] fs[i]).name.len() <= u32::MAX) && is_enc_at(
            ws@,
            pos as int,
            enc_schema(fs, 0),
        );
    let ghost hm: Seq<FieldDefModel> = if hex {
        choose|fs: Seq<FieldDefModel>|
            fs.len() == nf && (forall|i: int|
                0 <= i < fs.len() ==> (#[trigger] fs[i]).name.len() <= u32::MAX) && is_enc_at(
                ws@,
                pos as int,
                enc_schema(fs, 0),
            )
    } else {
        vstd::pervasive::arbitrary()
    };
    let cap = ws.len();
    if pos > cap {
        proof {
            if hex {
                assert(false);
            }
        }
        return None;
    }
    let mut p: usize = pos;
    let mut fields: Vec<FieldDef> = Vec::new();
    let mut i: u32 = 0;
    proof {
        assert(ws@.subrange(pos as int, p as int) =~= enc_schema(fields.deep_view(), 0));
    }
    while i < nf
        invariant
            pos <= p <= cap == ws@.len(),
            i <= nf,
            fields@.len() == i,
            ws@.subrange(pos as int, p as int) == enc_schema(fields.deep_view(), 0),
            forall|j: int|
                0 <= j < fields@.len() ==> (#[trigger] fields.deep_view()[j]).name.len()
                    <= u32::MAX,
            hex ==> i <= hm.len() && nf == hm.len() && is_enc_at(
                ws@,
                p as int,
                enc_schema(hm, i as int),
            ),
        decreases nf - i,
    {
        proof {
            if hex {
                let hf = hm[i as int];
                lemma_enc_split(ws@, p as int, enc_fielddef(hf), enc_schema(hm, i + 1));
                assert(enc_fielddef(hf) =~= enc_str(hf.name) + seq![
                    enc_bool(hf.indexed),
                    enc_bool(hf.stored),
                ]);
                lemma_enc_split(
                    ws@,
                    p as int,
                    enc_str(hf.name),
                    seq![enc_bool(hf.indexed), enc_bool(hf.stored)],
                );
            }
        }
        let (name, p2) = match parse_string(ws, p) {
            Some(x) => x,
            None => {
                proof {
                    if hex {
                        assert(false);
                    }
                }
                return None;
            },
        };
        proof {
            if hex {
                let hf = hm[i as int];
                sd_str(ws@, p as int, name@, hf.name);
                lemma_enc_index(
                    ws@,
                    p + enc_str(hf.name).len(),
                    seq![enc_bool(hf.indexed), enc_bool(hf.stored)],
                    0,
                );
                lemma_enc_index(
                    ws@,
                    p + enc_str(hf.name).len(),
                    seq![enc_bool(hf.indexed), enc_bool(hf.stored)],
                    1,
                );
            }
        }
        let iw = match rd(ws, p2) {
            Some(w) => w,
            None => {
                proof {
                    if hex {
                        assert(false);
                    }
                }
                return None;
            },
        };
        let sw = match rd(ws, p2 + 1) {
            Some(w) => w,
            None => {
                proof {
                    if hex {
                        assert(false);
                    }
                }
                return None;
            },
        };
        if iw > 1 || sw > 1 {
            proof {
                if hex {
                    assert(false);
                }
            }
            return None;
        }
        let ghost dv0 = fields.deep_view();
        let ghost pold = p as int;
        fields.push(FieldDef { name, indexed: iw == 1, stored: sw == 1 });
        p = p2 + 2;
        proof {
            let x = fields@[i as int].deep_view();
            assert(fields.deep_view() =~= dv0.push(x));
            let chunk = ws@.subrange(pold, p as int);
            assert(chunk.len() == enc_fielddef(x).len());
            assert forall|k: int| 0 <= k < chunk.len() implies chunk[k] == enc_fielddef(x)[k] by {
                assert(chunk[k] == ws@[pold + k]);
                if k < chunk.len() - 2 {
                    assert(ws@.subrange(pold, p2 as int)[k] == ws@[pold + k]);
                }
            }
            assert(chunk =~= enc_fielddef(x));
            lemma_enc_schema_push(dv0, x, 0);
            assert(ws@.subrange(pos as int, p as int) =~= ws@.subrange(pos as int, pold) + chunk);
            if hex {
                assert(p as int == pold + enc_fielddef(hm[i as int]).len());
            }
        }
        i = i + 1;
    }
    Some((fields, p))
}

/// Parse a run of `ns` segments: a parse is exactly an encoding, and it
/// succeeds whenever one of that count stands at the position.
#[verifier::loop_isolation(false)]
#[verifier::rlimit(60)]
fn parse_segments(ws: &Vec<u32>, pos: usize, ns: u32) -> (r: Option<(Vec<Segment>, usize)>)
    ensures
        r is Some ==> {
            &&& pos <= (r->0).1 <= ws@.len()
            &&& (r->0).0@.len() == ns
            &&& forall|j: int|
                0 <= j < (r->0).0@.len() ==> seg_bounded(#[trigger] (r->0).0.deep_view()[j])
            &&& ws@.subrange(pos as int, (r->0).1 as int) == enc_segments((r->0).0.deep_view(), 0)
        },
        (exists|ss: Seq<SegmentModel>|
            ss.len() == ns && (forall|i: int| 0 <= i < ss.len() ==> seg_bounded(#[trigger] ss[i]))
                && is_enc_at(ws@, pos as int, enc_segments(ss, 0))) ==> r is Some,
{
    let ghost hex = exists|ss: Seq<SegmentModel>|
        ss.len() == ns && (forall|i: int| 0 <= i < ss.len() ==> seg_bounded(#[trigger] ss[i]))
            && is_enc_at(ws@, pos as int, enc_segments(ss, 0));
    let ghost hm: Seq<SegmentModel> = if hex {
        choose|ss: Seq<SegmentModel>|
            ss.len() == ns && (forall|i: int| 0 <= i < ss.len() ==> seg_bounded(#[trigger] ss[i]))
                && is_enc_at(ws@, pos as int, enc_segments(ss, 0))
    } else {
        vstd::pervasive::arbitrary()
    };
    let cap = ws.len();
    if pos > cap {
        proof {
            if hex {
                assert(false);
            }
        }
        return None;
    }
    let mut p: usize = pos;
    let mut segments: Vec<Segment> = Vec::new();
    let mut j: u32 = 0;
    proof {
        assert(ws@.subrange(pos as int, p as int) =~= enc_segments(segments.deep_view(), 0));
    }
    while j < ns
        invariant
            pos <= p <= cap == ws@.len(),
            j <= ns,
            segments@.len() == j,
            ws@.subrange(pos as int, p as int) == enc_segments(segments.deep_view(), 0),
            forall|k: int|
                0 <= k < segments@.len() ==> seg_bounded(#[trigger] segments.deep_view()[k]),
            hex ==> j <= hm.len() && ns == hm.len() && is_enc_at(
                ws@,
                p as int,
                enc_segments(hm, j as int),
            ),
        decreases ns - j,
    {
        proof {
            if hex {
                lemma_enc_split(ws@, p as int, enc_segment(hm[j as int]), enc_segments(hm, j + 1));
            }
        }
        let (seg, p3) = match parse_segment(ws, p) {
            Some(x) => x,
            None => {
                proof {
                    if hex {
                        assert(false);
                    }
                }
                return None;
            },
        };
        proof {
            if hex {
                assert(is_enc_at(ws@, p as int, enc_segment(seg.deep_view())));
                sd_segment(ws@, p as int, seg.deep_view(), hm[j as int]);
            }
        }
        let ghost dv0 = segments.deep_view();
        let ghost pold = p as int;
        segments.push(seg);
        p = p3;
        proof {
            assert(segments.deep_view() =~= dv0.push(segments@[j as int].deep_view()));
            lemma_enc_segments_push(dv0, segments@[j as int].deep_view(), 0);
            assert(ws@.subrange(pos as int, p as int) =~= ws@.subrange(pos as int, pold)
                + ws@.subrange(pold, p as int));
        }
        j = j + 1;
    }
    Some((segments, p))
}

/// Parse a whole payload into an index. The payload must be consumed
/// exactly; a parse is exactly the payload's content, and it succeeds
/// whenever the payload is the word encoding of some bounded index.
#[verifier::loop_isolation(false)]
#[verifier::rlimit(60)]
fn parse_index(ws: &Vec<u32>) -> (r: Option<Index>)
    ensures
        r is Some ==> idx_bounded(r->0.deep_view()) && spec_encode_words(r->0.deep_view()) == ws@,
        (exists|m: IndexModel| idx_bounded(m) && spec_encode_words(m) == ws@) ==> r is Some,
{
    let ghost hex = exists|m: IndexModel| idx_bounded(m) && spec_encode_words(m) == ws@;
    let ghost hm: IndexModel = if hex {
        choose|m: IndexModel| idx_bounded(m) && spec_encode_words(m) == ws@
    } else {
        vstd::pervasive::arbitrary()
    };
    let cap = ws.len();
    let ghost tail = seq![hm.segments.len() as u32] + enc_segments(hm.segments, 0);
    proof {
        if hex {
            assert(is_enc_at(ws@, 0, spec_encode_words(hm))) by {
                assert(ws@.subrange(0, ws@.len() as int) =~= ws@);
            }
            assert(spec_encode_words(hm) =~= seq![MAGIC, hm.schema.fields.len() as u32] + (
            enc_schema(hm.schema.fields, 0) + tail));
            lemma_enc_split(
                ws@,
                0,
                seq![MAGIC, hm.schema.fields.len() as u32],
                enc_schema(hm.schema.fields, 0) + tail,
            );
            lemma_enc_index(ws@, 0, seq![MAGIC, hm.schema.fields.len() as u32], 0);
            lemma_enc_index(ws@, 0, seq![MAGIC, hm.schema.fields.len() as u32], 1);
            lemma_enc_split(ws@, 2, enc_schema(hm.schema.fields, 0), tail);
        }
    }
    let magic = match rd(ws, 0) {
        Some(w) => w,
        None => {
            proof {
                if hex {
                    assert(false);
                }
            }
            return None;
        },
    };
    if magic != MAGIC {
        proof {
            if hex {
                assert(false);
            }
        }
        return None;
    }
    let nf = match rd(ws, 1) {
        Some(w) => w,
        None => {
            proof {
                if hex {
                    assert(false);
                }
            }
            return None;
        },
    };
    let (fields, p) = match parse_fields(ws, 2, nf) {
        Some(x) => x,
        None => {
            proof {
                if hex {
                    assert(false);
                }
            }
            return None;
        },
    };
    proof {
        if hex {
            assert(is_enc_at(ws@, 2, enc_schema(fields.deep_view(), 0)));
            sd_schema(ws@, 2, fields.deep_view(), 0, hm.schema.fields, 0);
            assert(p as int == 2 + enc_schema(hm.schema.fields, 0).len());
            lemma_enc_split(ws@, p as int, seq![hm.segments.len() as u32], enc_segments(hm.segments, 0));
            lemma_enc_index(ws@, p as int, seq![hm.segments.len() as u32], 0);
        }
    }
    let ns = match rd(ws, p) {
        Some(w) => w,
        None => {
            proof {
                if hex {
                    assert(false);
                }
            }
            return None;
        },
    };
    let (segments, p2) = match parse_segments(ws, p + 1, ns) {
        Some(x) => x,
        None => {
            proof {
                if hex {
                    assert(false);
                }
            }
            return None;
        },
    };
    if p2 != ws.len() {
        proof {
            if hex {
                assert(is_enc_at(ws@, p + 1, enc_segments(segments.deep_view(), 0)));
                sd_segments(ws@, p + 1, segments.deep_view(), 0, hm.segments, 0);
                assert(spec_encode_words(hm).len() == ws@.len());
                assert(p2 as int == ws@.len());
                assert(false);
            }
        }
        return None;
    }
    let idx = Index { schema: Schema { fields }, segments };
    proof {
        let dv = idx.deep_view();
        assert(dv.schema.fields == idx.schema.fields.deep_view());
        let chunk = ws@.subrange(0, p2 as int);
        assert(chunk =~= ws@);
        assert(chunk.len() == spec_encode_words(dv).len());
        let sl = enc_schema(dv.schema.fields, 0).len();
        assert forall|k: int| 0 <= k < chunk.len() implies chunk[k] == spec_encode_words(dv)[k] by {
            assert(chunk[k] == ws@[k]);
            if 2 <= k < 2 + sl {
                assert(ws@.subrange(2, p as int)[k - 2] == ws@[k]);
            } else if k > 2 + sl {
                assert(ws@.subrange(p + 1, p2 as int)[k - (3 + sl)] == ws@[k]);
            }
        }
        assert(chunk =~= spec_encode_words(dv));
    }
    Some(idx)
}

/// The byte image of a word list is four bytes per word.
proof fn lemma_wtb_len(w: Seq<u32>, k: int)
    requires
        0 <= k <= w.len(),
    ensures
        words_to_bytes(w, k).len() == 4 * (w.len() - k),
    decreases w.len() - k,
{
    if k < w.len() {
        lemma_wtb_len(w, k + 1);
    }
}

/// The four bytes of word `k` stand at offset `4 * k` of the image.
proof fn lemma_wtb_index(w: Seq<u32>, k: int)
    requires
        0 <= k < w.len(),
    ensures
        words_to_bytes(w, 0)[4 * k] == (w[k] % 256) as u8,
        words_to_bytes(w, 0)[4 * k + 1] == ((w[k] / 256) % 256) as u8,
        words_to_bytes(w, 0)[4 * k + 2] == ((w[k] / 65536) % 256) as u8,
        words_to_bytes(w, 0)[4 * k + 3] == (w[k] / 16777216) as u8,
{
    lemma_wtb_index_from(w, 0, k);
}

/// The four bytes of word `k` stand at offset `4 * (k - j)` of the image
/// from `j` on.
proof fn lemma_wtb_index_from(w: Seq<u32>, j: int, k: int)
    requires
        0 <= j <= k < w.len(),
    ensures
        words_to_bytes(w, j)[4 * (k - j)] == (w[k] % 256) as u8,
        words_to_bytes(w, j)[4 * (k - j) + 1] == ((w[k] / 256) % 256) as u8,
        words_to_bytes(w, j)[4 * (k - j) + 2] == ((w[k] / 65536) % 256) as u8,
        words_to_bytes(w, j)[4 * (k - j) + 3] == (w[k] / 16777216) as u8,
    decreases k - j,
{
    lemma_wtb_len(w, j);
    if j < k {
        lemma_wtb_index_from(w, j + 1, k);
        lemma_wtb_len(w, j + 1);
    }
}

/// A word is recomposed exactly from its four little-endian bytes.
proof fn lemma_word_recompose(w: u32)
    ensures
        (w % 256) + 256 * ((w / 256) % 256) + 65536 * ((w / 65536) % 256) + 16777216 * (w
            / 16777216) == w,
        w / 16777216 < 256,
{
    vstd::arithmetic::div_mod::lemma_fundamental_div_mod(w as int, 256);
    vstd::arithmetic::div_mod::lemma_fundamental_div_mod(w as int / 256, 256);
    vstd::arithmetic::div_mod::lemma_fundamental_div_mod(w as int / 65536, 256);
    vstd::arithmetic::div_mod::lemma_div_denominator(w as int, 256, 256);
    vstd::arithmetic::div_mod::lemma_div_denominator(w as int, 65536, 256);
    assert(w as int / 16777216 < 256) by {
        vstd::arithmetic::div_mod::lemma_div_denominator(w as int, 16777216, 256);
        vstd::arithmetic::div_mod::lemma_basic_div(w as int, 0x100000000);
    }
}

/// A running checksum stays a 32-bit value.
proof fn lemma_cksum_range(ws: Seq<u32>, k: int, acc: int)
    requires
        0 <= acc < 0x100000000,
    ensures
        0 <= cksum(ws, k, acc) < 0x100000000,
    decreases ws.len() - k,
{
    if 0 <= k < ws.len() {
        lemma_cksum_range(ws, k + 1, (acc + ws[k]) % 0x100000000);
    }
}

/// Open an index from its byte image. Validates the framing, the trailing
/// checksum, and finally that the parse re-encodes to exactly the input
/// bytes. Decoding is exactly inverse to encoding: an `Ok` index is
/// precisely the one whose image this is, and an error comes only on byte
/// strings that are the image of no bounded index. Framing and checksum
/// failures yield `CorruptIndex`; a payload that does not parse back to an
/// index with this image yields `IndexCorrupt`.
#[verifier::loop_isolation(false)]
#[verifier::rlimit(60)]
pub fn decode_index(bytes: &Vec<u8>) -> (r: Result<Index, Error>)
    ensures
        ({
            match r {
                Ok(idx) => spec_encode_bytes(idx.deep_view()) == bytes@ && idx_bounded(
                    idx.deep_view(),
                ),
                Err(e) => e == Error::CorruptIndex || e == Error::IndexCorrupt,
            }
        }),
        r is Err ==> !(exists|m: IndexModel| idx_bounded(m) && spec_encode_bytes(m) == bytes@),
        bytes@.len() % 4 != 0 || bytes@.len() < 12 ==> r == Err::<Index, Error>(
            Error::CorruptIndex,
        ),
{
    let ghost hex = exists|m: IndexModel| idx_bounded(m) && spec_encode_bytes(m) == bytes@;
    let ghost hm: IndexModel = if hex {
        choose|m: IndexModel| idx_bounded(m) && spec_encode_bytes(m) == bytes@
    } else {
        vstd::pervasive::arbitrary()
    };
    let ghost hws = spec_encode_words(hm).push(cksum(spec_encode_words(hm), 0, 0) as u32);
    proof {
        if hex {
            lemma_wtb_len(hws, 0);
            assert(bytes@.len() == 4 * hws.len());
            assert(hws.len() >= 4) by {
                assert(spec_encode_words(hm).len() >= 3);
            }
        }
    }
    let nb = bytes.len();
    if nb % 4 != 0 || nb < 12 {
        proof {
            if hex {
                vstd::arithmetic::div_mod::lemma_mod_multiples_basic(hws.len() as int, 4);
                assert(false);
            }
        }
        return Err(Error::CorruptIndex);
    }
    let nw = nb / 4;
    proof {
        if hex {
            vstd::arithmetic::div_mod::lemma_fundamental_div_mod(nb as int, 4);
            assert(nw as int == hws.len());
        }
    }
    let mut words: Vec<u32> = Vec::new();
    let mut k: usize = 0;
    while k < nw
        invariant
            nb == bytes@.len(),
            nw == nb as int / 4,
            nb % 4 == 0,
            0 <= k <= nw,
            words@.len() == k,
            hex ==> nw as int == hws.len() && bytes@ == words_to_bytes(hws, 0) && (forall|j: int|
                0 <= j < k ==> words@[j] == hws[j]),
        decreases nw - k,
    {
        proof {
            assert(4 * (k as int) + 3 < nb as int) by {
                vstd::arithmetic::div_mod::lemma_fundamental_div_mod(nb as int, 4);
            }
        }
        let b0 = bytes[4 * k] as u32;
        let b1 = bytes[4 * k + 1] as u32;
        let b2 = bytes[4 * k + 2] as u32;
        let b3 = bytes[4 * k + 3] as u32;
        words.push(b0 + 256 * b1 + 65536 * b2 + 16777216 * b3);
        proof {
            if hex {
                lemma_wtb_index(hws, k as int);
                lemma_word_recompose(hws[k as int]);
                assert(words@[k as int] == hws[k as int]);
            }
        }
        k = k + 1;
    }
    proof {
        if hex {
            assert(words@ =~= hws);
        }
    }
    let mut payload: Vec<u32> = Vec::new();
    let mut k2: usize = 0;
    while k2 < nw - 1
        invariant
            nw == words@.len(),
            nw >= 3,
            0 <= k2 <= nw - 1,
            payload@.len() == k2,
            forall|j: int| 0 <= j < k2 ==> payload@[j] == words@[j],
        decreases nw - 1 - k2,
    {
        payload.push(words[k2]);
        k2 = k2 + 1;
    }
    proof {
        if hex {
            assert(payload@ =~= spec_encode_words(hm));
        }
    }
    let c = exec_cksum(&payload);
    if c != words[nw - 1] {
        proof {
            if hex {
                lemma_cksum_range(spec_encode_words(hm), 0, 0);
                assert(words@[nw - 1] == hws[nw - 1]);
                assert(false);
            }
        }
        return Err(Error::CorruptIndex);
    }
    let idx = match parse_index(&payload) {
        Some(idx) => idx,
        None => {
            proof {
                if hex {
                    assert(false);
                }
            }
            return Err(Error::IndexCorrupt);
        },
    };
    let reenc = match encode_index(&idx) {
        Ok(b2) => b2,
        Err(_) => {
            return Err(Error::IndexCorrupt);
        },
    };
    if !bytes_eq(&reenc, bytes) {
        proof {
            if hex {
                assert(spec_encode_words(idx.deep_view()) == spec_encode_words(hm));
                assert(reenc@ == bytes@);
                assert(false);
            }
        }
        return Err(Error::IndexCorrupt);
    }
    Ok(idx)
}

} // verus!
