//! The searcher.
//!
//! Evaluates a query tree against each segment independently: postings-list
//! intersection for conjunctions, union for disjunctions, and a
//! position-adjacency check for phrases. Matches are scored by term
//! frequency weighted by inverse document frequency over the full index,
//! merged across segments in score-descending order (ties broken by
//! ascending address), and truncated to the caller's limit.

use vstd::prelude::*;

use crate::address::DocAddress;
use crate::error::Error;
use crate::query::{qmodel, QueryModel, QueryNode};
use vstd::multiset::Multiset;
use crate::segment::{Index, IndexModel, PostingModel, Segment, SegmentModel, TermEntry, token_eq};

verus! {

/// The first dictionary entry at or after `i` holding exactly this term.
pub open spec fn find_term_from(
    ts: Seq<crate::segment::TermEntryModel>,
    field: u32,
    token: Seq<char>,
    i: int,
) -> Option<int>
    decreases ts.len() - i,
{
    if i < 0 || i >= ts.len() {
        None
    } else if ts[i].field == field && ts[i].token == token {
        Some(i)
    } else {
        find_term_from(ts, field, token, i + 1)
    }
}

/// The postings list of a term in one segment; empty when the term is
/// absent.
pub open spec fn spec_term_postings(seg: SegmentModel, field: u32, token: Seq<char>) -> Seq<
    PostingModel,
> {
    match find_term_from(seg.terms, field, token, 0) {
        Some(i) => seg.terms[i].postings,
        None => Seq::<PostingModel>::empty(),
    }
}

/// The first posting at or after `i` for the given document.
pub open spec fn find_posting_from(ps: Seq<PostingModel>, d: u32, i: int) -> Option<int>
    decreases ps.len() - i,
{
    if i < 0 || i >= ps.len() {
        None
    } else if ps[i].doc_id == d {
        Some(i)
    } else {
        find_posting_from(ps, d, i + 1)
    }
}

/// The positions at which a term occurs in one document of one segment;
/// empty when it does not occur.
pub open spec fn spec_positions(seg: SegmentModel, field: u32, token: Seq<char>, d: u32) -> Seq<
    u32,
> {
    let ps = spec_term_postings(seg, field, token);
    match find_posting_from(ps, d, 0) {
        Some(i) => ps[i].positions,
        None => Seq::<u32>::empty(),
    }
}

/// The documents of a term's postings list, in list order.
pub open spec fn spec_term_docs(seg: SegmentModel, field: u32, token: Seq<char>) -> Seq<u32> {
    let ps = spec_term_postings(seg, field, token);
    Seq::new(ps.len(), |i: int| ps[i].doc_id)
}

/// The term occurs in the document at (mathematical) position `x`.
pub open spec fn positions_contain(
    seg: SegmentModel,
    field: u32,
    token: Seq<char>,
    d: u32,
    x: int,
) -> bool {
    let ps = spec_positions(seg, field, token, d);
    exists|i: int| 0 <= i < ps.len() && ps[i] == x
}

pub open spec fn phrase_match_at(
    seg: SegmentModel,
    field: u32,
    tokens: Seq<Seq<char>>,
    d: u32,
    p: u32,
) -> bool {
    forall|j: int|
        #![trigger tokens[j]]
        1 <= j < tokens.len() ==> positions_contain(seg, field, tokens[j], d, p + j)
}

/// A phrase matches a document when the first token occurs at some position
/// `p` and every following token `j` occurs at position `p + j`.
pub open spec fn spec_phrase_match(
    seg: SegmentModel,
    field: u32,
    tokens: Seq<Seq<char>>,
    d: u32,
) -> bool {
    let pos0 = spec_positions(seg, field, tokens[0], d);
    exists|pi: int|
        #![trigger pos0[pi]]
        0 <= pi < pos0.len() && phrase_match_at(seg, field, tokens, d, pos0[pi])
}

/// Filter the first token's documents down to those the phrase matches.
pub open spec fn phrase_filter(
    seg: SegmentModel,
    field: u32,
    tokens: Seq<Seq<char>>,
    docs: Seq<u32>,
    k: int,
    acc: Seq<u32>,
) -> Seq<u32>
    decreases docs.len() - k,
{
    if k < 0 || k >= docs.len() {
        acc
    } else {
        let acc2 = if spec_phrase_match(seg, field, tokens, docs[k]) {
            acc.push(docs[k])
        } else {
            acc
        };
        phrase_filter(seg, field, tokens, docs, k + 1, acc2)
    }
}

/// The documents a phrase matches in one segment, in postings order.
pub open spec fn spec_phrase_docs(seg: SegmentModel, field: u32, tokens: Seq<Seq<char>>) -> Seq<
    u32,
> {
    if tokens.len() == 0 {
        Seq::<u32>::empty()
    } else {
        phrase_filter(seg, field, tokens, spec_term_docs(seg, field, tokens[0]), 0, Seq::empty())
    }
}

/// Intersection: the elements of `a`, in order, that `b` also holds.
pub open spec fn spec_intersect(a: Seq<u32>, b: Seq<u32>, k: int, acc: Seq<u32>) -> Seq<u32>
    decreases a.len() - k,
{
    if k < 0 || k >= a.len() {
        acc
    } else {
        let acc2 = if b.contains(a[k]) {
            acc.push(a[k])
        } else {
            acc
        };
        spec_intersect(a, b, k + 1, acc2)
    }
}

/// Union: `acc` extended by the elements of `b` it does not already hold.
pub open spec fn spec_union(b: Seq<u32>, k: int, acc: Seq<u32>) -> Seq<u32>
    decreases b.len() - k,
{
    if k < 0 || k >= b.len() {
        acc
    } else {
        let acc2 = if acc.contains(b[k]) {
            acc
        } else {
            acc.push(b[k])
        };
        spec_union(b, k + 1, acc2)
    }
}

/// The documents of one segment that a query matches, by recursive descent:
/// a term yields its postings' documents, a phrase its adjacency matches, a
/// conjunction the intersection of its children, a disjunction their union.
pub open spec fn spec_eval(seg: SegmentModel, q: QueryModel) -> Seq<u32>
    decreases q, 0int,
{
    match q {
        QueryModel::Term { field, token } => spec_term_docs(seg, field, token),
        QueryModel::Phrase { field, tokens } => spec_phrase_docs(seg, field, tokens),
        QueryModel::And { children } => if children.len() == 0 {
            Seq::<u32>::empty()
        } else {
            eval_and(seg, children, 1, spec_eval(seg, children[0]))
        },
        QueryModel::Or { children } => eval_or(seg, children, 0, Seq::<u32>::empty()),
    }
}

/// Fold intersection over the remaining conjuncts.
pub open spec fn eval_and(seg: SegmentModel, cs: Seq<QueryModel>, k: int, acc: Seq<u32>) -> Seq<
    u32,
>
    decreases cs, cs.len() - k,
{
    if k < 0 || k >= cs.len() {
        acc
    } else {
        eval_and(seg, cs, k + 1, spec_intersect(acc, spec_eval(seg, cs[k]), 0, Seq::empty()))
    }
}

/// Fold union over the remaining disjuncts.
pub open spec fn eval_or(seg: SegmentModel, cs: Seq<QueryModel>, k: int, acc: Seq<u32>) -> Seq<u32>
    decreases cs, cs.len() - k,
{
    if k < 0 || k >= cs.len() {
        acc
    } else {
        eval_or(seg, cs, k + 1, spec_union(spec_eval(seg, cs[k]), 0, acc))
    }
}

/// Does the sequence hold this document id?
#[verifier::loop_isolation(false)]
fn contains_u32(v: &Vec<u32>, x: u32) -> (r: bool)
    ensures
        r == v@.contains(x),
{
    let n = v.len();
    let mut i: usize = 0;
    while i < n
        invariant
            0 <= i <= n == v@.len(),
            forall|j: int| 0 <= j < i ==> v@[j] != x,
        decreases n - i,
    {
        if v[i] == x {
            proof {
                assert(v@.contains(x));
            }
            return true;
        }
        i = i + 1;
    }
    proof {
        assert(!v@.contains(x));
    }
    false
}

/// Find the dictionary entry of a term by linear scan.
#[verifier::loop_isolation(false)]
fn exec_find_term(terms: &Vec<TermEntry>, field: u32, token: &Vec<char>) -> (r: Option<usize>)
    ensures
        ({
            let f = find_term_from(terms.deep_view(), field, token@, 0);
            match r {
                Some(i) => f == Some(i as int) && i < terms@.len(),
                None => f is None,
            }
        }),
{
    let n = terms.len();
    let mut i: usize = 0;
    while i < n
        invariant
            0 <= i <= n == terms@.len(),
            find_term_from(terms.deep_view(), field, token@, 0) == find_term_from(
                terms.deep_view(),
                field,
                token@,
                i as int,
            ),
        decreases n - i,
    {
        if terms[i].field == field && token_eq(&terms[i].token, token) {
            proof {
                assert(terms.deep_view()[i as int] == terms@[i as int].deep_view());
            }
            return Some(i);
        }
        proof {
            assert(terms.deep_view()[i as int] == terms@[i as int].deep_view());
        }
        i = i + 1;
    }
    None
}

/// The documents of a term's postings list in one segment.
#[verifier::loop_isolation(false)]
fn exec_term_docs(seg: &Segment, field: u32, token: &Vec<char>) -> (r: Vec<u32>)
    ensures
        r@ == spec_term_docs(seg.deep_view(), field, token@),
{
    let mut r: Vec<u32> = Vec::new();
    match exec_find_term(&seg.terms, field, token) {
        None => {
            proof {
                assert(r@ =~= spec_term_docs(seg.deep_view(), field, token@));
            }
            r
        },
        Some(t) => {
            let ghost ps = spec_term_postings(seg.deep_view(), field, token@);
            proof {
                assert(seg.terms.deep_view()[t as int] == seg.terms@[t as int].deep_view());
                assert(ps == seg.terms@[t as int].deep_view().postings);
            }
            let n = seg.terms[t].postings.len();
            let mut i: usize = 0;
            while i < n
                invariant
                    0 <= i <= n == ps.len(),
                    t < seg.terms@.len(),
                    ps == spec_term_postings(seg.deep_view(), field, token@),
                    ps == seg.terms@[t as int].deep_view().postings,
                    r@ =~= Seq::new(i as nat, |j: int| ps[j].doc_id),
                decreases n - i,
            {
                r.push(seg.terms[t].postings[i].doc_id);
                proof {
                    assert(seg.terms@[t as int].postings.deep_view()[i as int] == seg.terms@[
                        t as int
                    ].postings@[i as int].deep_view());
                    assert(r@ =~= Seq::new((i + 1) as nat, |j: int| ps[j].doc_id));
                }
                i = i + 1;
            }
            proof {
                assert(r@ =~= spec_term_docs(seg.deep_view(), field, token@));
            }
            r
        },
    }
}

/// The positions of a term in one document of one segment.
#[verifier::loop_isolation(false)]
fn exec_positions(seg: &Segment, field: u32, token: &Vec<char>, d: u32) -> (r: Vec<u32>)
    ensures
        r@ == spec_positions(seg.deep_view(), field, token@, d),
{
    let ghost target = spec_positions(seg.deep_view(), field, token@, d);
    let mut r: Vec<u32> = Vec::new();
    match exec_find_term(&seg.terms, field, token) {
        None => {
            proof {
                assert(r@ =~= target);
            }
            r
        },
        Some(t) => {
            let ghost ps = spec_term_postings(seg.deep_view(), field, token@);
            proof {
                assert(seg.terms.deep_view()[t as int] == seg.terms@[t as int].deep_view());
                assert(ps == seg.terms@[t as int].deep_view().postings);
            }
            let n = seg.terms[t].postings.len();
            let mut i: usize = 0;
            while i < n
                invariant
                    0 <= i <= n == ps.len(),
                    t < seg.terms@.len(),
                    ps == spec_term_postings(seg.deep_view(), field, token@),
                    ps == seg.terms@[t as int].deep_view().postings,
                    find_posting_from(ps, d, 0) == find_posting_from(ps, d, i as int),
                    r@.len() == 0,
                decreases n - i,
            {
                proof {
                    assert(ps[i as int] == seg.terms@[t as int].postings@[i as int].deep_view());
                }
                if seg.terms[t].postings[i].doc_id == d {
                    let m = seg.terms[t].postings[i].positions.len();
                    let mut p: usize = 0;
                    while p < m
                        invariant
                            0 <= p <= m == ps[i as int].positions.len(),
                            t < seg.terms@.len(),
                            i < seg.terms@[t as int].postings@.len(),
                            ps[i as int] == seg.terms@[t as int].postings@[
                                i as int
                            ].deep_view(),
                            r@ =~= ps[i as int].positions.subrange(0, p as int),
                        decreases m - p,
                    {
                        r.push(seg.terms[t].postings[i].positions[p]);
                        p = p + 1;
                    }
                    proof {
                        assert(r@ =~= ps[i as int].positions);
                        assert(find_posting_from(ps, d, i as int) == Some(i as int));
                    }
                    return r;
                }
                i = i + 1;
            }
            proof {
                assert(find_posting_from(ps, d, 0) is None);
                assert(r@ =~= target);
            }
            r
        },
    }
}

/// Does the phrase match this document?
#[verifier::loop_isolation(false)]
fn exec_phrase_match(seg: &Segment, field: u32, tokens: &Vec<Vec<char>>, d: u32) -> (r: bool)
    requires
        tokens@.len() > 0,
    ensures
        r == spec_phrase_match(
            seg.deep_view(),
            field,
            crate::tokenizer::token_views(tokens@),
            d,
        ),
{
    let ghost tv = crate::tokenizer::token_views(tokens@);
    let pos0 = exec_positions(seg, field, &tokens[0], d);
    proof {
        assert(tv[0] == tokens@[0]@);
    }
    let n0 = pos0.len();
    let nt = tokens.len();
    let mut pi: usize = 0;
    while pi < n0
        invariant
            0 <= pi <= n0 == pos0@.len(),
            pos0@ == spec_positions(seg.deep_view(), field, tv[0], d),
            forall|q: int|
                0 <= q < pi ==> !phrase_match_at(seg.deep_view(), field, tv, d, #[trigger] pos0@[q]),
        decreases n0 - pi,
    {
        let p = pos0[pi];
        let mut ok = true;
        let mut j: usize = 1;
        while j < nt
            invariant
                1 <= j <= nt == tv.len(),
                pi < pos0@.len(),
                pos0@ == spec_positions(seg.deep_view(), field, tv[0], d),
                ok ==> forall|m: int|
                    #![trigger tv[m]]
                    1 <= m < j ==> positions_contain(
                        seg.deep_view(),
                        field,
                        tv[m],
                        d,
                        pos0@[pi as int] + m,
                    ),
                !ok ==> !phrase_match_at(seg.deep_view(), field, tv, d, pos0@[pi as int]),
                p == pos0@[pi as int],
            decreases nt - j,
        {
            if !ok {
                j = nt;
            } else {
                let ghost jj = j as int;
                if j > u32::MAX as usize || p > u32::MAX - (j as u32) {
                    proof {
                        assert(p + jj > u32::MAX);
                        assert(tv[jj].len() >= 0);
                        assert(!positions_contain(seg.deep_view(), field, tv[jj], d, p + jj));
                        assert(!phrase_match_at(seg.deep_view(), field, tv, d, p));
                    }
                    ok = false;
                } else {
                    let target = p + (j as u32);
                    let posj = exec_positions(seg, field, &tokens[j], d);
                    proof {
                        assert(tv[jj] == tokens@[jj]@);
                    }
                    if contains_u32(&posj, target) {
                        proof {
                            let ps = spec_positions(seg.deep_view(), field, tv[jj], d);
                            let w = choose|ii: int| 0 <= ii < ps.len() && ps[ii] == target;
                            assert(positions_contain(seg.deep_view(), field, tv[jj], d, p + jj));
                        }
                    } else {
                        proof {
                            assert forall|ii: int|
                                0 <= ii < posj@.len() implies posj@[ii] != p + jj by {
                                assert(!posj@.contains(target));
                            }
                            assert(!positions_contain(seg.deep_view(), field, tv[jj], d, p + jj));
                            assert(!phrase_match_at(seg.deep_view(), field, tv, d, p));
                        }
                        ok = false;
                    }
                }
                j = j + 1;
            }
        }
        if ok {
            proof {
                assert forall|m: int| #![trigger tv[m]] 1 <= m < tv.len() implies positions_contain(
                    seg.deep_view(),
                    field,
                    tv[m],
                    d,
                    pos0@[pi as int] + m,
                ) by {
                    assert(1 <= m < j as int);
                }
                assert(phrase_match_at(seg.deep_view(), field, tv, d, pos0@[pi as int]));
                assert(spec_phrase_match(seg.deep_view(), field, tv, d));
            }
            return true;
        }
        pi = pi + 1;
    }
    proof {
        assert(!spec_phrase_match(seg.deep_view(), field, tv, d));
    }
    false
}

/// Intersection of two owned document lists.
#[verifier::loop_isolation(false)]
fn exec_intersect(a: &Vec<u32>, b: &Vec<u32>) -> (r: Vec<u32>)
    ensures
        r@ == spec_intersect(a@, b@, 0, Seq::<u32>::empty()),
{
    let mut r: Vec<u32> = Vec::new();
    let n = a.len();
    let mut k: usize = 0;
    proof {
        assert(r@ =~= Seq::<u32>::empty());
    }
    while k < n
        invariant
            0 <= k <= n == a@.len(),
            spec_intersect(a@, b@, 0, Seq::<u32>::empty()) == spec_intersect(a@, b@, k as int, r@),
        decreases n - k,
    {
        if contains_u32(b, a[k]) {
            r.push(a[k]);
        }
        k = k + 1;
    }
    r
}

/// Union: extend `acc` by the documents of `b` it does not already hold.
#[verifier::loop_isolation(false)]
fn exec_union(b: &Vec<u32>, acc: Vec<u32>) -> (r: Vec<u32>)
    ensures
        r@ == spec_union(b@, 0, acc@),
{
    let mut r = acc;
    let n = b.len();
    let mut k: usize = 0;
    while k < n
        invariant
            0 <= k <= n == b@.len(),
            spec_union(b@, 0, acc@) == spec_union(b@, k as int, r@),
        decreases n - k,
    {
        if !contains_u32(&r, b[k]) {
            r.push(b[k]);
        }
        k = k + 1;
    }
    r
}

/// Evaluate a query against one segment by recursive descent.
#[verifier::loop_isolation(false)]
fn eval_node(seg: &Segment, q: &QueryNode) -> (r: Vec<u32>)
    ensures
        r@ == spec_eval(seg.deep_view(), qmodel(*q)),
    decreases *q,
{
    match q {
        QueryNode::Term { field, token } => exec_term_docs(seg, *field, token),
        QueryNode::Phrase { field, tokens } => {
            let ghost tv = crate::tokenizer::token_views(tokens@);
            if tokens.len() == 0 {
                let r: Vec<u32> = Vec::new();
                proof {
                    assert(r@ =~= spec_eval(seg.deep_view(), qmodel(*q)));
                }
                r
            } else {
                proof {
                    assert(tv[0] == tokens@[0]@);
                }
                let docs0 = exec_term_docs(seg, *field, &tokens[0]);
                let mut r: Vec<u32> = Vec::new();
                let n = docs0.len();
                let mut k: usize = 0;
                proof {
                    assert(r@ =~= Seq::<u32>::empty());
                }
                while k < n
                    invariant
                        0 <= k <= n == docs0@.len(),
                        docs0@ == spec_term_docs(seg.deep_view(), *field, tv[0]),
                        tokens@.len() > 0,
                        tv == crate::tokenizer::token_views(tokens@),
                        phrase_filter(seg.deep_view(), *field, tv, docs0@, 0, Seq::<u32>::empty())
                            == phrase_filter(seg.deep_view(), *field, tv, docs0@, k as int, r@),
                    decreases n - k,
                {
                    if exec_phrase_match(seg, *field, tokens, docs0[k]) {
                        r.push(docs0[k]);
                    }
                    k = k + 1;
                }
                proof {
                    assert(r@ == spec_phrase_docs(seg.deep_view(), *field, tv));
                }
                r
            }
        },
        QueryNode::And { children } => {
            let ghost cm = crate::query::qmodels(children@);
            proof {
                crate::query::lemma_qmodels_index(children@);
            }
            if children.len() == 0 {
                let r: Vec<u32> = Vec::new();
                proof {
                    assert(r@ =~= spec_eval(seg.deep_view(), qmodel(*q)));
                }
                r
            } else {
                let mut acc = eval_node(seg, &children[0]);
                let n = children.len();
                let mut k: usize = 1;
                while k < n
                    invariant
                        1 <= k <= n == children@.len() == cm.len(),
                        cm == crate::query::qmodels(children@),
                        forall|i: int| 0 <= i < cm.len() ==> cm[i] == qmodel(children@[i]),
                        eval_and(seg.deep_view(), cm, 1, spec_eval(seg.deep_view(), cm[0]))
                            == eval_and(seg.deep_view(), cm, k as int, acc@),
                    decreases n - k,
                {
                    let d = eval_node(seg, &children[k]);
                    acc = exec_intersect(&acc, &d);
                    k = k + 1;
                }
                acc
            }
        },
        QueryNode::Or { children } => {
            let ghost cm = crate::query::qmodels(children@);
            proof {
                crate::query::lemma_qmodels_index(children@);
            }
            let mut acc: Vec<u32> = Vec::new();
            let n = children.len();
            let mut k: usize = 0;
            proof {
                assert(acc@ =~= Seq::<u32>::empty());
            }
            while k < n
                invariant
                    0 <= k <= n == children@.len() == cm.len(),
                    cm == crate::query::qmodels(children@),
                    forall|i: int| 0 <= i < cm.len() ==> cm[i] == qmodel(children@[i]),
                    eval_or(seg.deep_view(), cm, 0, Seq::<u32>::empty()) == eval_or(
                        seg.deep_view(),
                        cm,
                        k as int,
                        acc@,
                    ),
                decreases n - k,
            {
                let d = eval_node(seg, &children[k]);
                acc = exec_union(&d, acc);
                k = k + 1;
            }
            acc
        },
    }
}

/// Clamp a mathematical value at `u64::MAX`: scores saturate rather than
/// wrap.
pub open spec fn sat64(x: int) -> int {
    if x > u64::MAX {
        u64::MAX as int
    } else {
        x
    }
}

/// The (field, token) pairs a query mentions, in tree order; phrases
/// contribute each of their tokens.
pub open spec fn query_term_list(q: QueryModel) -> Seq<(u32, Seq<char>)>
    decreases q, 0int,
{
    match q {
        QueryModel::Term { field, token } => seq![(field, token)],
        QueryModel::Phrase { field, tokens } => Seq::new(
            tokens.len(),
            |j: int| (field, tokens[j]),
        ),
        QueryModel::And { children } => terms_of_list(children, 0),
        QueryModel::Or { children } => terms_of_list(children, 0),
    }
}

/// The terms of a list of subqueries, concatenated.
pub open spec fn terms_of_list(cs: Seq<QueryModel>, k: int) -> Seq<(u32, Seq<char>)>
    decreases cs, cs.len() - k,
{
    if k < 0 || k >= cs.len() {
        Seq::<(u32, Seq<char>)>::empty()
    } else {
        query_term_list(cs[k]) + terms_of_list(cs, k + 1)
    }
}

/// The views of owned (field, token) pairs.
pub open spec fn term_pair_views(ts: Seq<(u32, Vec<char>)>) -> Seq<(u32, Seq<char>)> {
    Seq::new(ts.len(), |i: int| (ts[i].0, ts[i].1@))
}

/// Collect the (field, token) pairs of a query in tree order.
#[verifier::loop_isolation(false)]
fn collect_terms(q: &QueryNode, out: &mut Vec<(u32, Vec<char>)>)
    ensures
        term_pair_views(final(out)@) == term_pair_views(old(out)@) + query_term_list(qmodel(*q)),
    decreases *q,
{
    let ghost base = term_pair_views(out@);
    match q {
        QueryNode::Term { field, token } => {
            let mut tok: Vec<char> = Vec::new();
            let tl = token.len();
            let mut p: usize = 0;
            while p < tl
                invariant
                    0 <= p <= tl == token@.len(),
                    tok@ =~= token@.subrange(0, p as int),
                decreases tl - p,
            {
                tok.push(token[p]);
                p = p + 1;
            }
            proof {
                assert(tok@ =~= token@);
            }
            out.push((*field, tok));
            proof {
                assert(term_pair_views(out@) =~= base + seq![(*field, token@)]);
            }
        },
        QueryNode::Phrase { field, tokens } => {
            let ghost tv = crate::tokenizer::token_views(tokens@);
            let n = tokens.len();
            let mut j: usize = 0;
            while j < n
                invariant
                    0 <= j <= n == tokens@.len(),
                    tv == crate::tokenizer::token_views(tokens@),
                    term_pair_views(out@) =~= base + Seq::new(
                        j as nat,
                        |m: int| (*field, tv[m]),
                    ),
                decreases n - j,
            {
                let mut tok: Vec<char> = Vec::new();
                let tl = tokens[j].len();
                let mut p: usize = 0;
                while p < tl
                    invariant
                        0 <= p <= tl == tokens@[j as int]@.len(),
                        j < tokens@.len(),
                        tok@ =~= tokens@[j as int]@.subrange(0, p as int),
                    decreases tl - p,
                {
                    tok.push(tokens[j][p]);
                    p = p + 1;
                }
                proof {
                    assert(tok@ =~= tokens@[j as int]@);
                    assert(tv[j as int] == tokens@[j as int]@);
                }
                let ghost pre = term_pair_views(out@);
                out.push((*field, tok));
                proof {
                    assert(term_pair_views(out@) =~= pre.push((*field, tv[j as int])));
                    assert(term_pair_views(out@) =~= base + Seq::new(
                        (j + 1) as nat,
                        |m: int| (*field, tv[m]),
                    ));
                }
                j = j + 1;
            }
            proof {
                assert(Seq::new(n as nat, |m: int| (*field, tv[m])) =~= query_term_list(
                    qmodel(*q),
                ));
            }
        },
        QueryNode::And { children } => {
            collect_list(children, out);
            proof {
                assert(term_pair_views(out@) == base + terms_of_list(
                    crate::query::qmodels(children@),
                    0,
                ));
            }
        },
        QueryNode::Or { children } => {
            collect_list(children, out);
            proof {
                assert(term_pair_views(out@) == base + terms_of_list(
                    crate::query::qmodels(children@),
                    0,
                ));
            }
        },
    }
}

/// Collect the terms of a list of subqueries, left to right.
#[verifier::loop_isolation(false)]
fn collect_list(children: &Vec<QueryNode>, out: &mut Vec<(u32, Vec<char>)>)
    ensures
        term_pair_views(final(out)@) == term_pair_views(old(out)@) + terms_of_list(
            crate::query::qmodels(children@),
            0,
        ),
    decreases *children,
{
    let ghost cm = crate::query::qmodels(children@);
    let ghost base = term_pair_views(out@);
    proof {
        crate::query::lemma_qmodels_index(children@);
    }
    let n = children.len();
    let mut k: usize = 0;
    proof {
        assert(base + terms_of_list(cm, 0) =~= base + terms_of_list(cm, 0));
    }
    while k < n
        invariant
            0 <= k <= n == children@.len() == cm.len(),
            cm == crate::query::qmodels(children@),
            forall|i: int| 0 <= i < cm.len() ==> cm[i] == qmodel(children@[i]),
            base + terms_of_list(cm, 0) =~= term_pair_views(out@) + terms_of_list(cm, k as int),
        decreases n - k,
    {
        let ghost pre = term_pair_views(out@);
        collect_terms(&children[k], out);
        proof {
            assert(pre + (query_term_list(cm[k as int]) + terms_of_list(cm, k + 1)) =~= (pre
                + query_term_list(cm[k as int])) + terms_of_list(cm, k + 1));
        }
        k = k + 1;
    }
    proof {
        assert(terms_of_list(cm, n as int) =~= Seq::<(u32, Seq<char>)>::empty());
        assert(term_pair_views(out@) + Seq::<(u32, Seq<char>)>::empty() =~= term_pair_views(out@));
    }
}

/// Running document-frequency count of a term over the segments from `k`
/// on, saturating at `u64::MAX`.
pub open spec fn spec_df(
    segs: Seq<SegmentModel>,
    field: u32,
    token: Seq<char>,
    k: int,
    acc: int,
) -> int
    decreases segs.len() - k,
{
    if k < 0 || k >= segs.len() {
        acc
    } else {
        spec_df(segs, field, token, k + 1, sat64(acc + spec_term_postings(segs[k], field, token).len()))
    }
}

/// Running document count of the index, saturating at `u64::MAX`.
pub open spec fn spec_total_docs(segs: Seq<SegmentModel>, k: int, acc: int) -> int
    decreases segs.len() - k,
{
    if k < 0 || k >= segs.len() {
        acc
    } else {
        spec_total_docs(segs, k + 1, sat64(acc + segs[k].docs.len()))
    }
}

/// The scaled inverse document frequency: decreasing in the fraction of
/// documents that hold the term.
pub open spec fn spec_idf(df: int, n: int) -> int {
    sat64(((n + 1) * 1024) / (df + 1))
}

/// The relevance score of one document for a term list: the sum over terms
/// of term frequency times scaled inverse document frequency, every step
/// saturating at `u64::MAX`.
pub open spec fn spec_doc_score(
    idx: IndexModel,
    terms: Seq<(u32, Seq<char>)>,
    seg: SegmentModel,
    d: u32,
    k: int,
    acc: int,
) -> int
    decreases terms.len() - k,
{
    if k < 0 || k >= terms.len() {
        acc
    } else {
        let t = terms[k];
        let tf = sat64(spec_positions(seg, t.0, t.1, d).len() as int);
        let idf = spec_idf(
            spec_df(idx.segments, t.0, t.1, 0, 0),
            spec_total_docs(idx.segments, 0, 0),
        );
        spec_doc_score(idx, terms, seg, d, k + 1, sat64(acc + sat64(tf * idf)))
    }
}

/// Saturating counts stay within `[lo, u64::MAX]`.
proof fn lemma_df_bounds(segs: Seq<SegmentModel>, field: u32, token: Seq<char>, k: int, acc: int)
    requires
        0 <= acc <= u64::MAX,
    ensures
        0 <= spec_df(segs, field, token, k, acc) <= u64::MAX,
    decreases segs.len() - k,
{
    if 0 <= k < segs.len() {
        lemma_df_bounds(segs, field, token, k + 1, sat64(acc + spec_term_postings(segs[k], field, token).len()));
    }
}

/// The running document count stays within `[0, u64::MAX]`.
proof fn lemma_total_bounds(segs: Seq<SegmentModel>, k: int, acc: int)
    requires
        0 <= acc <= u64::MAX,
    ensures
        0 <= spec_total_docs(segs, k, acc) <= u64::MAX,
    decreases segs.len() - k,
{
    if 0 <= k < segs.len() {
        lemma_total_bounds(segs, k + 1, sat64(acc + segs[k].docs.len()));
    }
}

/// A document score stays within `[0, u64::MAX]`.
proof fn lemma_score_bounds(
    idx: IndexModel,
    terms: Seq<(u32, Seq<char>)>,
    seg: SegmentModel,
    d: u32,
    k: int,
    acc: int,
)
    requires
        0 <= acc <= u64::MAX,
    ensures
        0 <= spec_doc_score(idx, terms, seg, d, k, acc) <= u64::MAX,
    decreases terms.len() - k,
{
    if 0 <= k < terms.len() {
        let t = terms[k];
        let tf = sat64(spec_positions(seg, t.0, t.1, d).len() as int);
        let n = spec_total_docs(idx.segments, 0, 0);
        let df = spec_df(idx.segments, t.0, t.1, 0, 0);
        lemma_total_bounds(idx.segments, 0, 0);
        lemma_df_bounds(idx.segments, t.0, t.1, 0, 0);
        let idf = spec_idf(df, n);
        assert(idf >= 0) by {
            vstd::arithmetic::div_mod::lemma_div_pos_is_pos((n + 1) * 1024, df + 1);
        }
        assert(tf * idf >= 0) by {
            vstd::arithmetic::mul::lemma_mul_nonnegative(tf, idf);
        }
        lemma_score_bounds(idx, terms, seg, d, k + 1, sat64(acc + sat64(tf * idf)));
    }
}

/// Saturating addition on `u64`.
fn sat_add_u64(a: u64, b: u64) -> (r: u64)
    ensures
        r as int == sat64(a as int + b as int),
{
    match a.checked_add(b) {
        Some(v) => v,
        None => u64::MAX,
    }
}

/// Saturating multiplication on `u64`.
fn sat_mul_u64(a: u64, b: u64) -> (r: u64)
    ensures
        r as int == sat64(a as int * b as int),
{
    match a.checked_mul(b) {
        Some(v) => v,
        None => u64::MAX,
    }
}

/// Count the documents holding a term across the whole index.
#[verifier::loop_isolation(false)]
fn exec_df(index: &Index, field: u32, token: &Vec<char>) -> (df: u64)
    ensures
        df as int == spec_df(index.deep_view().segments, field, token@, 0, 0),
{
    let ghost segs = index.deep_view().segments;
    let mut acc: u64 = 0;
    let ns = index.segments.len();
    let mut k: usize = 0;
    while k < ns
        invariant
            0 <= k <= ns == segs.len(),
            segs == index.deep_view().segments,
            spec_df(segs, field, token@, 0, 0) == spec_df(segs, field, token@, k as int, acc as int),
        decreases ns - k,
    {
        proof {
            assert(segs[k as int] == index.segments@[k as int].deep_view());
        }
        let seg = &index.segments[k];
        let cnt: u64 = match exec_find_term(&seg.terms, field, token) {
            Some(t) => {
                proof {
                    assert(seg.terms.deep_view()[t as int] == seg.terms@[t as int].deep_view());
                }
                seg.terms[t].postings.len() as u64
            },
            None => 0,
        };
        proof {
            assert(cnt as int == spec_term_postings(segs[k as int], field, token@).len());
        }
        acc = sat_add_u64(acc, cnt);
        k = k + 1;
    }
    acc
}

/// Count the documents of the whole index.
#[verifier::loop_isolation(false)]
fn exec_total_docs(index: &Index) -> (n: u64)
    ensures
        n as int == spec_total_docs(index.deep_view().segments, 0, 0),
{
    let ghost segs = index.deep_view().segments;
    let mut acc: u64 = 0;
    let ns = index.segments.len();
    let mut k: usize = 0;
    while k < ns
        invariant
            0 <= k <= ns == segs.len(),
            segs == index.deep_view().segments,
            spec_total_docs(segs, 0, 0) == spec_total_docs(segs, k as int, acc as int),
        decreases ns - k,
    {
        proof {
            assert(segs[k as int] == index.segments@[k as int].deep_view());
        }
        let cnt = index.segments[k].docs.len() as u64;
        acc = sat_add_u64(acc, cnt);
        k = k + 1;
    }
    acc
}

/// The scaled inverse document frequency of one term.
fn exec_idf(df: u64, n: u64) -> (r: u64)
    ensures
        r as int == spec_idf(df as int, n as int),
{
    let num: u128 = (n as u128 + 1) * 1024;
    proof {
        assert((n as u128 + 1) * 1024 <= 0x4000000000000000000u128) by (nonlinear_arith)
            requires
                n as u128 + 1 <= 0x10000000000000000u128,
        ;
    }
    let q = num / (df as u128 + 1);
    if q > u64::MAX as u128 {
        u64::MAX
    } else {
        q as u64
    }
}

/// The term frequency of one term in one document, clamped.
fn exec_tf(seg: &Segment, field: u32, token: &Vec<char>, d: u32) -> (tf: u64)
    ensures
        tf as int == sat64(spec_positions(seg.deep_view(), field, token@, d).len() as int),
{
    let ps = exec_positions(seg, field, token, d);
    ps.len() as u64
}

/// The relevance score of one matched document.
#[verifier::loop_isolation(false)]
fn exec_doc_score(
    index: &Index,
    seg: &Segment,
    terms: &Vec<(u32, Vec<char>)>,
    idfs: &Vec<u64>,
    d: u32,
) -> (r: u64)
    requires
        idfs@.len() == terms@.len(),
        forall|i: int|
            0 <= i < terms@.len() ==> #[trigger] idfs@[i] as int == spec_idf(
                spec_df(
                    index.deep_view().segments,
                    term_pair_views(terms@)[i].0,
                    term_pair_views(terms@)[i].1,
                    0,
                    0,
                ),
                spec_total_docs(index.deep_view().segments, 0, 0),
            ),
    ensures
        r as int == spec_doc_score(
            index.deep_view(),
            term_pair_views(terms@),
            seg.deep_view(),
            d,
            0,
            0,
        ),
{
    let ghost tl = term_pair_views(terms@);
    let mut acc: u64 = 0;
    let n = terms.len();
    let mut k: usize = 0;
    while k < n
        invariant
            0 <= k <= n == tl.len() == terms@.len() == idfs@.len(),
            tl == term_pair_views(terms@),
            spec_doc_score(index.deep_view(), tl, seg.deep_view(), d, 0, 0) == spec_doc_score(
                index.deep_view(),
                tl,
                seg.deep_view(),
                d,
                k as int,
                acc as int,
            ),
        decreases n - k,
    {
        proof {
            assert(tl[k as int] == (terms@[k as int].0, terms@[k as int].1@));
        }
        let tf = exec_tf(seg, terms[k].0, &terms[k].1, d);
        let part = sat_mul_u64(tf, idfs[k]);
        acc = sat_add_u64(acc, part);
        k = k + 1;
    }
    acc
}

/// One match before ranking: the segment it came from, its local document
/// id, and its score.
#[derive(Clone, Copy, PartialEq, Eq, Structural, Debug)]
pub struct Hit {
    pub seg: u32,
    pub doc: u32,
    pub score: u64,
}

/// Ranking order: higher score first, ties broken by ascending address.
pub open spec fn hit_before(a: Hit, b: Hit) -> bool {
    a.score > b.score || (a.score == b.score && (a.seg < b.seg || (a.seg == b.seg && a.doc
        < b.doc)))
}

/// The insertion slot of a hit: before the first ranked element it precedes.
pub open spec fn ins_pos(s: Seq<Hit>, h: Hit, i: int) -> int
    decreases s.len() - i,
{
    if i < 0 || i >= s.len() {
        s.len() as int
    } else if hit_before(h, s[i]) {
        i
    } else {
        ins_pos(s, h, i + 1)
    }
}

/// Insert one hit at its ranked slot.
pub open spec fn insert_hit(s: Seq<Hit>, h: Hit) -> Seq<Hit> {
    s.insert(ins_pos(s, h, 0), h)
}

/// Insertion sort of the hits from `k` on into the ranked accumulator.
pub open spec fn sort_hits(s: Seq<Hit>, k: int, acc: Seq<Hit>) -> Seq<Hit>
    decreases s.len() - k,
{
    if k < 0 || k >= s.len() {
        acc
    } else {
        sort_hits(s, k + 1, insert_hit(acc, s[k]))
    }
}

/// Insert one hit into a ranked vector at its slot.
#[verifier::loop_isolation(false)]
fn exec_insert_hit(v: &mut Vec<Hit>, h: Hit)
    ensures
        final(v)@ == insert_hit(old(v)@, h),
{
    let n = v.len();
    let mut i: usize = 0;
    while i < n
        invariant
            0 <= i <= n == v@.len(),
            v@ == old(v)@,
            ins_pos(v@, h, 0) == ins_pos(v@, h, i as int),
        decreases n - i,
    {
        let c = &v[i];
        if h.score > c.score || (h.score == c.score && (h.seg < c.seg || (h.seg == c.seg && h.doc
            < c.doc))) {
            v.insert(i, h);
            return ;
        }
        i = i + 1;
    }
    v.insert(n, h);
}

/// The hits of one segment's matches, in match order.
pub open spec fn seg_hits(
    idx: IndexModel,
    terms: Seq<(u32, Seq<char>)>,
    seg: SegmentModel,
    s_ord: u32,
    docs: Seq<u32>,
    k: int,
    acc: Seq<Hit>,
) -> Seq<Hit>
    decreases docs.len() - k,
{
    if k < 0 || k >= docs.len() {
        acc
    } else {
        seg_hits(
            idx,
            terms,
            seg,
            s_ord,
            docs,
            k + 1,
            acc.push(
                Hit {
                    seg: s_ord,
                    doc: docs[k],
                    score: spec_doc_score(idx, terms, seg, docs[k], 0, 0) as u64,
                },
            ),
        )
    }
}

/// Every segment's hits, segments scanned in order.
pub open spec fn all_hits(
    idx: IndexModel,
    q: QueryModel,
    terms: Seq<(u32, Seq<char>)>,
    s: int,
    acc: Seq<Hit>,
) -> Seq<Hit>
    decreases idx.segments.len() - s,
{
    if s < 0 || s >= idx.segments.len() {
        acc
    } else {
        let seg = idx.segments[s];
        all_hits(idx, q, terms, s + 1, seg_hits(idx, terms, seg, s as u32, spec_eval(seg, q), 0, acc))
    }
}

/// Every field a query names is declared in the schema.
pub open spec fn query_fields_ok(q: QueryModel, nf: int) -> bool
    decreases q, 0int,
{
    match q {
        QueryModel::Term { field, token } => field < nf,
        QueryModel::Phrase { field, tokens } => field < nf,
        QueryModel::And { children } => fields_ok_list(children, nf, 0),
        QueryModel::Or { children } => fields_ok_list(children, nf, 0),
    }
}

/// Every field of a list of subqueries is declared.
pub open spec fn fields_ok_list(cs: Seq<QueryModel>, nf: int, k: int) -> bool
    decreases cs, cs.len() - k,
{
    if k < 0 || k >= cs.len() {
        true
    } else {
        query_fields_ok(cs[k], nf) && fields_ok_list(cs, nf, k + 1)
    }
}

/// Check every field the query names against the schema size.
#[verifier::loop_isolation(false)]
fn check_fields(q: &QueryNode, nf: usize) -> (r: bool)
    ensures
        r == query_fields_ok(qmodel(*q), nf as int),
    decreases *q,
{
    match q {
        QueryNode::Term { field, token } => (*field as usize) < nf,
        QueryNode::Phrase { field, tokens } => (*field as usize) < nf,
        QueryNode::And { children } => check_fields_list(children, nf),
        QueryNode::Or { children } => check_fields_list(children, nf),
    }
}

/// Check the fields of a list of subqueries.
#[verifier::loop_isolation(false)]
fn check_fields_list(children: &Vec<QueryNode>, nf: usize) -> (r: bool)
    ensures
        r == fields_ok_list(crate::query::qmodels(children@), nf as int, 0),
    decreases *children,
{
    let ghost cm = crate::query::qmodels(children@);
    proof {
        crate::query::lemma_qmodels_index(children@);
    }
    let n = children.len();
    let mut k: usize = 0;
    while k < n
        invariant
            0 <= k <= n == children@.len() == cm.len(),
            cm == crate::query::qmodels(children@),
            forall|i: int| 0 <= i < cm.len() ==> cm[i] == qmodel(children@[i]),
            fields_ok_list(cm, nf as int, 0) == fields_ok_list(cm, nf as int, k as int),
        decreases n - k,
    {
        if !check_fields(&children[k], nf) {
            proof {
                assert(!fields_ok_list(cm, nf as int, k as int));
            }
            return false;
        }
        k = k + 1;
    }
    true
}

/// The ranked results of a query against an index: every segment's matches,
/// scored, merged score-descending with ties broken by ascending address,
/// and truncated to the limit.
pub open spec fn spec_search(idx: IndexModel, q: QueryModel, limit: int) -> Seq<(DocAddress, u64)> {
    let terms = query_term_list(q);
    let sorted = sort_hits(all_hits(idx, q, terms, 0, Seq::<Hit>::empty()), 0, Seq::<Hit>::empty());
    let cut = if limit < sorted.len() {
        sorted.subrange(0, limit)
    } else {
        sorted
    };
    Seq::new(
        cut.len(),
        |i: int| (DocAddress { segment_ord: cut[i].seg, doc_id: cut[i].doc }, cut[i].score),
    )
}

/// Evaluate a parsed query against an index and return at most `limit`
/// ranked `(address, score)` pairs. Rejects a query naming an undeclared
/// field with `FieldNotFound`, and an index whose postings fail structural
/// validation with `IndexCorrupt`.
#[verifier::loop_isolation(false)]
pub fn search(index: &Index, q: &QueryNode, limit: usize) -> (r: Result<Vec<(DocAddress, u64)>, Error>)
    requires
        index.deep_view().segments.len() <= u32::MAX,
    ensures
        ({
            let nf = index.deep_view().schema.fields.len() as int;
            match r {
                Ok(v) => query_fields_ok(qmodel(*q), nf) && crate::segment::index_wf(
                    index.deep_view(),
                ) && v@ == spec_search(index.deep_view(), qmodel(*q), limit as int),
                Err(e) => (e == Error::FieldNotFound && !query_fields_ok(qmodel(*q), nf)) || (e
                    == Error::IndexCorrupt && query_fields_ok(qmodel(*q), nf)
                    && !crate::segment::index_wf(index.deep_view())),
            }
        }),
{
    let ghost idx = index.deep_view();
    proof {
        assert(index.segments@.len() == idx.segments.len());
    }
    let nf = index.schema.fields.len();
    if !check_fields(q, nf) {
        return Err(Error::FieldNotFound);
    }
    if !crate::segment::is_wf_index(index) {
        return Err(Error::IndexCorrupt);
    }
    let mut terms: Vec<(u32, Vec<char>)> = Vec::new();
    collect_terms(q, &mut terms);
    let ghost tl = term_pair_views(terms@);
    proof {
        assert(term_pair_views(Seq::<(u32, Vec<char>)>::empty()) =~= Seq::<(u32, Seq<char>)>::empty());
        assert(Seq::<(u32, Seq<char>)>::empty() + query_term_list(qmodel(*q)) =~= query_term_list(
            qmodel(*q),
        ));
    }
    let n_total = exec_total_docs(index);
    let nt = terms.len();
    let mut idfs: Vec<u64> = Vec::new();
    let mut k: usize = 0;
    while k < nt
        invariant
            0 <= k <= nt == terms@.len() == tl.len(),
            tl == term_pair_views(terms@),
            idfs@.len() == k,
            n_total as int == spec_total_docs(idx.segments, 0, 0),
            idx == index.deep_view(),
            forall|i: int|
                0 <= i < k ==> #[trigger] idfs@[i] as int == spec_idf(
                    spec_df(idx.segments, tl[i].0, tl[i].1, 0, 0),
                    spec_total_docs(idx.segments, 0, 0),
                ),
        decreases nt - k,
    {
        proof {
            assert(tl[k as int] == (terms@[k as int].0, terms@[k as int].1@));
        }
        let df = exec_df(index, terms[k].0, &terms[k].1);
        let idf = exec_idf(df, n_total);
        idfs.push(idf);
        k = k + 1;
    }
    let mut hits: Vec<Hit> = Vec::new();
    let ns = index.segments.len();
    let mut si: usize = 0;
    proof {
        assert(hits@ =~= Seq::<Hit>::empty());
    }
    while si < ns
        invariant
            0 <= si <= ns == idx.segments.len(),
            idx == index.deep_view(),
            tl == term_pair_views(terms@),
            nt == terms@.len(),
            idfs@.len() == terms@.len(),
            forall|i: int|
                0 <= i < terms@.len() ==> #[trigger] idfs@[i] as int == spec_idf(
                    spec_df(idx.segments, tl[i].0, tl[i].1, 0, 0),
                    spec_total_docs(idx.segments, 0, 0),
                ),
            all_hits(idx, qmodel(*q), tl, 0, Seq::<Hit>::empty()) == all_hits(
                idx,
                qmodel(*q),
                tl,
                si as int,
                hits@,
            ),
        decreases ns - si,
    {
        proof {
            assert(idx.segments[si as int] == index.segments@[si as int].deep_view());
        }
        let seg = &index.segments[si];
        let docs = eval_node(seg, q);
        let nd = docs.len();
        let mut di: usize = 0;
        let ghost outer_acc = hits@;
        while di < nd
            invariant
                0 <= di <= nd == docs@.len(),
                si < idx.segments.len(),
                idx == index.deep_view(),
                idx.segments[si as int] == seg.deep_view(),
                tl == term_pair_views(terms@),
                idfs@.len() == terms@.len(),
                forall|i: int|
                    0 <= i < terms@.len() ==> #[trigger] idfs@[i] as int == spec_idf(
                        spec_df(idx.segments, tl[i].0, tl[i].1, 0, 0),
                        spec_total_docs(idx.segments, 0, 0),
                    ),
                seg_hits(idx, tl, seg.deep_view(), si as u32, docs@, 0, outer_acc) == seg_hits(
                    idx,
                    tl,
                    seg.deep_view(),
                    si as u32,
                    docs@,
                    di as int,
                    hits@,
                ),
            decreases nd - di,
        {
            let d = docs[di];
            let score = exec_doc_score(index, seg, &terms, &idfs, d);
            proof {
                lemma_score_bounds(idx, tl, seg.deep_view(), d, 0, 0);
            }
            hits.push(Hit { seg: si as u32, doc: d, score });
            di = di + 1;
        }
        si = si + 1;
    }
    let mut sorted: Vec<Hit> = Vec::new();
    let nh = hits.len();
    let mut hi: usize = 0;
    proof {
        assert(sorted@ =~= Seq::<Hit>::empty());
    }
    while hi < nh
        invariant
            0 <= hi <= nh == hits@.len(),
            sort_hits(hits@, 0, Seq::<Hit>::empty()) == sort_hits(hits@, hi as int, sorted@),
        decreases nh - hi,
    {
        exec_insert_hit(&mut sorted, hits[hi]);
        hi = hi + 1;
    }
    let m = if limit < sorted.len() {
        limit
    } else {
        sorted.len()
    };
    let ghost cut = if (limit as int) < sorted@.len() {
        sorted@.subrange(0, limit as int)
    } else {
        sorted@
    };
    let mut out: Vec<(DocAddress, u64)> = Vec::new();
    let mut oi: usize = 0;
    while oi < m
        invariant
            0 <= oi <= m <= sorted@.len(),
            m == if (limit as int) < sorted@.len() {
                limit as int
            } else {
                sorted@.len() as int
            },
            cut == if (limit as int) < sorted@.len() {
                sorted@.subrange(0, limit as int)
            } else {
                sorted@
            },
            cut.len() == m,
            out@ =~= Seq::new(
                oi as nat,
                |i: int| (DocAddress { segment_ord: cut[i].seg, doc_id: cut[i].doc }, cut[i].score),
            ),
        decreases m - oi,
    {
        let h = sorted[oi];
        proof {
            assert(cut[oi as int] == sorted@[oi as int]);
        }
        out.push((DocAddress { segment_ord: h.seg, doc_id: h.doc }, h.score));
        proof {
            assert(out@ =~= Seq::new(
                (oi + 1) as nat,
                |i: int| (DocAddress { segment_ord: cut[i].seg, doc_id: cut[i].doc }, cut[i].score),
            ));
        }
        oi = oi + 1;
    }
    proof {
        assert(out@ =~= spec_search(idx, qmodel(*q), limit as int));
    }
    Ok(out)
}

/// Ghost model of one search result.
pub struct SearchResultModel {
    pub address: Seq<char>,
    pub title: Seq<char>,
}

/// One search result: the document's encoded address and its stored title.
#[derive(Debug)]
pub struct SearchResult {
    pub address: String,
    pub title: String,
}

impl DeepView for SearchResult {
    type V = SearchResultModel;

    open spec fn deep_view(&self) -> SearchResultModel {
        SearchResultModel { address: self.address@, title: self.title@ }
    }
}

impl SearchResult {
    /// The tab-separated presentation of one result:
    /// `address`, a tab, `title`.
    pub fn to_line(&self) -> (r: String)
        ensures
            r@ == self.address@ + seq!['\t'] + self.title@,
    {
        let mut r = self.address.clone();
        crate::strutil::push_char(&mut r, '\t');
        r.append(self.title.as_str());
        proof {
            assert(r@ =~= self.address@ + seq!['\t'] + self.title@);
        }
        r
    }
}

/// Materialize titles for ranked pairs from `k` on: each address's first
/// stored title value, or `FieldNotFound` when a result's title is missing.
pub open spec fn spec_results_from(
    idx: IndexModel,
    t_field: u32,
    pairs: Seq<(DocAddress, u64)>,
    k: int,
    acc: Seq<SearchResultModel>,
) -> Result<Seq<SearchResultModel>, Error>
    decreases pairs.len() - k,
{
    if k < 0 || k >= pairs.len() {
        Ok(acc)
    } else {
        match crate::store::spec_stored_value(idx, pairs[k].0, t_field) {
            None => Err(Error::FieldNotFound),
            Some(title) => spec_results_from(
                idx,
                t_field,
                pairs,
                k + 1,
                acc.push(
                    SearchResultModel {
                        address: crate::address::spec_format_addr(pairs[k].0),
                        title,
                    },
                ),
            ),
        }
    }
}

/// What searching by query string yields: the query parsed over the default
/// fields `title` and `body`, validated structurally, evaluated with a
/// result limit of 10, each ranked address materialized with its stored
/// title.
pub open spec fn spec_search_documents(idx: IndexModel, q: Seq<char>) -> Result<
    Seq<SearchResultModel>,
    Error,
> {
    match idx.schema.spec_get_field("title"@) {
        None => Err(Error::FieldNotFound),
        Some(tf) => match idx.schema.spec_get_field("body"@) {
            None => Err(Error::FieldNotFound),
            Some(bf) => match crate::query::spec_parse_query(idx.schema, seq![tf, bf], q) {
                Err(e) => Err(e),
                Ok(qm) => if !query_fields_ok(qm, idx.schema.fields.len() as int) {
                    Err(Error::FieldNotFound)
                } else if !crate::segment::index_wf(idx) {
                    Err(Error::IndexCorrupt)
                } else {
                    spec_results_from(
                        idx,
                        tf,
                        spec_search(idx, qm, 10),
                        0,
                        Seq::<SearchResultModel>::empty(),
                    )
                },
            },
        },
    }
}

/// Search an index with a raw query string: parse it over the default
/// fields, evaluate with a limit of 10 results, and return each match's
/// address and stored title in rank order.
#[verifier::loop_isolation(false)]
pub fn search_documents(index: &Index, query: &str) -> (r: Result<Vec<SearchResult>, Error>)
    requires
        index.deep_view().segments.len() <= u32::MAX,
        index.deep_view().schema.fields.len() <= u32::MAX,
    ensures
        ({
            let sr = spec_search_documents(index.deep_view(), query@);
            match r {
                Ok(v) => sr == Ok::<Seq<SearchResultModel>, Error>(v.deep_view()),
                Err(e) => sr == Err::<Seq<SearchResultModel>, Error>(e),
            }
        }),
{
    let ghost idx = index.deep_view();
    proof {
        assert(index.segments@.len() == idx.segments.len());
        assert(index.schema.fields@.len() == idx.schema.fields.len());
    }
    let t_field = match index.schema.get_field("title") {
        Some(f) => f,
        None => {
            return Err(Error::FieldNotFound);
        },
    };
    let b_field = match index.schema.get_field("body") {
        Some(f) => f,
        None => {
            return Err(Error::FieldNotFound);
        },
    };
    let mut defaults: Vec<u32> = Vec::new();
    defaults.push(t_field);
    defaults.push(b_field);
    proof {
        assert(defaults@ =~= seq![t_field, b_field]);
    }
    let qn = match crate::query::parse_query(&index.schema, &defaults, query) {
        Ok(qn) => qn,
        Err(e) => {
            return Err(e);
        },
    };
    let pairs = match search(index, &qn, 10) {
        Ok(p) => p,
        Err(e) => {
            return Err(e);
        },
    };
    let mut results: Vec<SearchResult> = Vec::new();
    let n = pairs.len();
    let mut k: usize = 0;
    proof {
        assert(results.deep_view() =~= Seq::<SearchResultModel>::empty());
    }
    while k < n
        invariant
            0 <= k <= n == pairs@.len(),
            idx == index.deep_view(),
            spec_results_from(idx, t_field, pairs@, 0, Seq::<SearchResultModel>::empty())
                == spec_results_from(idx, t_field, pairs@, k as int, results.deep_view()),
        decreases n - k,
    {
        let addr = pairs[k].0;
        let doc = match crate::store::fetch(index, addr) {
            Ok(d) => d,
            Err(_) => {
                return Err(Error::FieldNotFound);
            },
        };
        let title = match crate::store::stored_value(doc, t_field) {
            Some(t) => t,
            None => {
                return Err(Error::FieldNotFound);
            },
        };
        let address = crate::address::doc_address_to_string(addr);
        let ghost pre = results.deep_view();
        results.push(SearchResult { address, title });
        proof {
            assert(results.deep_view() =~= pre.push(
                SearchResultModel {
                    address: crate::address::spec_format_addr(addr),
                    title: title@,
                },
            ));
        }
        k = k + 1;
    }
    Ok(results)
}

/// Scores rise with term frequency, step by step: with equal inverse
/// document frequencies, a document whose term frequencies dominate
/// another's scores at least as high from any dominating accumulator.
proof fn lemma_score_mono_from(
    idx: IndexModel,
    terms: Seq<(u32, Seq<char>)>,
    seg1: SegmentModel,
    d1: u32,
    seg2: SegmentModel,
    d2: u32,
    k: int,
    acc1: int,
    acc2: int,
)
    requires
        0 <= acc2 <= acc1 <= u64::MAX,
        forall|i: int|
            0 <= i < terms.len() ==> spec_positions(
                seg1,
                (#[trigger] terms[i]).0,
                terms[i].1,
                d1,
            ).len() >= spec_positions(seg2, terms[i].0, terms[i].1, d2).len(),
    ensures
        spec_doc_score(idx, terms, seg1, d1, k, acc1) >= spec_doc_score(idx, terms, seg2, d2, k, acc2),
    decreases terms.len() - k,
{
    if 0 <= k < terms.len() {
        let t = terms[k];
        let tf1 = sat64(spec_positions(seg1, t.0, t.1, d1).len() as int);
        let tf2 = sat64(spec_positions(seg2, t.0, t.1, d2).len() as int);
        let n = spec_total_docs(idx.segments, 0, 0);
        let df = spec_df(idx.segments, t.0, t.1, 0, 0);
        lemma_total_bounds(idx.segments, 0, 0);
        lemma_df_bounds(idx.segments, t.0, t.1, 0, 0);
        let idf = spec_idf(df, n);
        assert(idf >= 0) by {
            vstd::arithmetic::div_mod::lemma_div_pos_is_pos((n + 1) * 1024, df + 1);
        }
        assert(tf2 <= tf1);
        assert(tf2 * idf <= tf1 * idf) by {
            vstd::arithmetic::mul::lemma_mul_inequality(tf2, tf1, idf);
        }
        assert(tf2 * idf >= 0) by {
            vstd::arithmetic::mul::lemma_mul_nonnegative(tf2, idf);
        }
        lemma_score_mono_from(
            idx,
            terms,
            seg1,
            d1,
            seg2,
            d2,
            k + 1,
            sat64(acc1 + sat64(tf1 * idf)),
            sat64(acc2 + sat64(tf2 * idf)),
        );
    }
}

/// Ranking monotonicity: between two documents of one index whose term
/// frequencies for every query term dominate pointwise (all else equal,
/// since document frequencies and the document count are those of the whole
/// index), the document with the higher frequencies scores at least as high.
pub proof fn lemma_ranking_monotonic(
    idx: IndexModel,
    terms: Seq<(u32, Seq<char>)>,
    seg1: SegmentModel,
    d1: u32,
    seg2: SegmentModel,
    d2: u32,
)
    requires
        forall|i: int|
            0 <= i < terms.len() ==> spec_positions(
                seg1,
                (#[trigger] terms[i]).0,
                terms[i].1,
                d1,
            ).len() >= spec_positions(seg2, terms[i].0, terms[i].1, d2).len(),
    ensures
        spec_doc_score(idx, terms, seg1, d1, 0, 0) >= spec_doc_score(idx, terms, seg2, d2, 0, 0),
{
    lemma_score_mono_from(idx, terms, seg1, d1, seg2, d2, 0, 0, 0);
}

/// The ranking order is transitive.
proof fn lemma_hit_before_trans(a: Hit, b: Hit, c: Hit)
    requires
        hit_before(a, b),
        hit_before(b, c),
    ensures
        hit_before(a, c),
{
}

/// A hit sequence is ranked: no later element precedes an earlier one.
pub open spec fn hits_sorted(s: Seq<Hit>) -> bool {
    forall|i: int, j: int| 0 <= i < j < s.len() ==> !hit_before(#[trigger] s[j], #[trigger] s[i])
}

/// The insertion slot lies in range, everything before it is not preceded
/// by the new hit, and the element at it (if any) is.
proof fn lemma_ins_pos_props(s: Seq<Hit>, h: Hit, i: int)
    requires
        0 <= i <= s.len(),
    ensures
        i <= ins_pos(s, h, i) <= s.len(),
        forall|j: int| i <= j < ins_pos(s, h, i) ==> !hit_before(h, #[trigger] s[j]),
        ins_pos(s, h, i) < s.len() ==> hit_before(h, s[ins_pos(s, h, i)]),
    decreases s.len() - i,
{
    if i < s.len() && !hit_before(h, s[i]) {
        lemma_ins_pos_props(s, h, i + 1);
    }
}

/// Inserting into a ranked sequence keeps it ranked.
proof fn lemma_insert_hit_sorted(s: Seq<Hit>, h: Hit)
    requires
        hits_sorted(s),
    ensures
        hits_sorted(insert_hit(s, h)),
{
    let pos = ins_pos(s, h, 0);
    lemma_ins_pos_props(s, h, 0);
    s.insert_ensures(pos, h);
    let r = s.insert(pos, h);
    assert forall|i: int, j: int| 0 <= i < j < r.len() implies !hit_before(r[j], r[i]) by {
        if j < pos {
            assert(r[i] == s[i] && r[j] == s[j]);
        } else if i < pos && j == pos {
            assert(r[i] == s[i] && r[j] == h);
            assert(!hit_before(h, s[i]));
        } else if i < pos && j > pos {
            assert(r[i] == s[i] && r[j] == s[j - 1]);
            if hit_before(s[j - 1], s[i]) {
                assert(false);
            }
        } else if i == pos {
            assert(r[i] == h && r[j] == s[j - 1]);
            if hit_before(s[j - 1], h) {
                assert(hit_before(h, s[pos]));
                lemma_hit_before_trans(s[j - 1], h, s[pos]);
                if j - 1 > pos {
                    assert(!hit_before(s[j - 1], s[pos]));
                }
                assert(false);
            }
        } else {
            assert(r[i] == s[i - 1] && r[j] == s[j - 1]);
        }
    }
}

/// Insertion sort yields a ranked sequence.
proof fn lemma_sort_hits_sorted(s: Seq<Hit>, k: int, acc: Seq<Hit>)
    requires
        hits_sorted(acc),
    ensures
        hits_sorted(sort_hits(s, k, acc)),
    decreases s.len() - k,
{
    if 0 <= k < s.len() {
        lemma_insert_hit_sorted(acc, s[k]);
        lemma_sort_hits_sorted(s, k + 1, insert_hit(acc, s[k]));
    }
}

/// Search results come out ranked: scores never increase along the result
/// list, and among equal scores the addresses never decrease.
pub proof fn lemma_search_ranked(idx: IndexModel, q: QueryModel, limit: int, i: int, j: int)
    requires
        0 <= limit,
        0 <= i < j < spec_search(idx, q, limit).len(),
    ensures
        ({
            let r = spec_search(idx, q, limit);
            r[i].1 > r[j].1 || (r[i].1 == r[j].1 && (r[i].0.segment_ord < r[j].0.segment_ord || (
            r[i].0.segment_ord == r[j].0.segment_ord && r[i].0.doc_id <= r[j].0.doc_id)))
        }),
{
    let terms = query_term_list(q);
    let sorted = sort_hits(all_hits(idx, q, terms, 0, Seq::<Hit>::empty()), 0, Seq::<Hit>::empty());
    lemma_sort_hits_sorted(
        all_hits(idx, q, terms, 0, Seq::<Hit>::empty()),
        0,
        Seq::<Hit>::empty(),
    );
    let cut = if limit < sorted.len() {
        sorted.subrange(0, limit)
    } else {
        sorted
    };
    assert(cut[i] == sorted[i]);
    assert(cut[j] == sorted[j]);
    assert(!hit_before(sorted[j], sorted[i]));
    assert(!hit_before(cut[j], cut[i]));
}

/// A zero limit yields an empty result list, with no error.
pub proof fn lemma_search_limit_zero(idx: IndexModel, q: QueryModel)
    ensures
        spec_search(idx, q, 0).len() == 0,
{
    let terms = query_term_list(q);
    let sorted = sort_hits(all_hits(idx, q, terms, 0, Seq::<Hit>::empty()), 0, Seq::<Hit>::empty());
    if 0 < sorted.len() {
        assert(sorted.subrange(0, 0) =~= Seq::<Hit>::empty());
    }
}

/// Ranked insertion preserves the multiset of hits.
proof fn lemma_insert_hit_multiset(s: Seq<Hit>, h: Hit)
    ensures
        insert_hit(s, h).to_multiset() == s.to_multiset().insert(h),
        insert_hit(s, h).len() == s.len() + 1,
{
    broadcast use vstd::seq_lib::group_to_multiset_ensures;

    let pos = ins_pos(s, h, 0);
    lemma_ins_pos_props(s, h, 0);
    let a = s.subrange(0, pos);
    let b = s.subrange(pos, s.len() as int);
    assert(s =~= a + b);
    assert(insert_hit(s, h) =~= a.push(h) + b);
    vstd::seq_lib::lemma_multiset_commutative(a.push(h), b);
    vstd::seq_lib::lemma_multiset_commutative(a, b);
    assert(a.push(h).to_multiset() =~= a.to_multiset().insert(h));
    assert(a.to_multiset().insert(h).add(b.to_multiset()) =~= a.to_multiset().add(
        b.to_multiset(),
    ).insert(h));
}

/// Insertion sort yields a permutation: the ranked hits are exactly the
/// accumulated hits plus the remaining ones.
proof fn lemma_sort_hits_multiset(s: Seq<Hit>, k: int, acc: Seq<Hit>)
    requires
        0 <= k <= s.len(),
    ensures
        sort_hits(s, k, acc).to_multiset() == acc.to_multiset().add(
            s.subrange(k, s.len() as int).to_multiset(),
        ),
    decreases s.len() - k,
{
    broadcast use vstd::seq_lib::group_to_multiset_ensures;

    if k == s.len() {
        assert(s.subrange(k, s.len() as int) =~= Seq::<Hit>::empty());
        assert(acc.to_multiset().add(Seq::<Hit>::empty().to_multiset()) =~= acc.to_multiset());
    } else {
        lemma_insert_hit_multiset(acc, s[k]);
        lemma_sort_hits_multiset(s, k + 1, insert_hit(acc, s[k]));
        assert(s.subrange(k, s.len() as int) =~= seq![s[k]] + s.subrange(k + 1, s.len() as int));
        vstd::seq_lib::lemma_multiset_commutative(seq![s[k]], s.subrange(k + 1, s.len() as int));
        assert(seq![s[k]].to_multiset() =~= Multiset::<Hit>::empty().insert(s[k]));
        assert(acc.to_multiset().insert(s[k]).add(
            s.subrange(k + 1, s.len() as int).to_multiset(),
        ) =~= acc.to_multiset().add(s.subrange(k, s.len() as int).to_multiset()));
    }
}

/// Top-K completeness: the ranked sequence the searcher truncates is a
/// permutation of every segment's hits, and everything it leaves out ranks
/// no better than anything it keeps. With `lemma_search_ranked` this pins
/// the result as the highest-ranked `limit` hits of the whole index.
pub proof fn lemma_search_top_k(idx: IndexModel, q: QueryModel, limit: int)
    requires
        0 <= limit,
    ensures
        ({
            let terms = query_term_list(q);
            let hits = all_hits(idx, q, terms, 0, Seq::<Hit>::empty());
            let sorted = sort_hits(hits, 0, Seq::<Hit>::empty());
            &&& sorted.to_multiset() == hits.to_multiset()
            &&& sorted.len() == hits.len()
            &&& spec_search(idx, q, limit).len() == if limit < sorted.len() {
                limit as nat
            } else {
                sorted.len()
            }
            &&& forall|i: int, j: int|
                0 <= i < spec_search(idx, q, limit).len() && spec_search(idx, q, limit).len() <= j
                    < sorted.len() ==> !hit_before(#[trigger] sorted[j], #[trigger] sorted[i])
        }),
{
    broadcast use vstd::seq_lib::group_to_multiset_ensures;

    let terms = query_term_list(q);
    let hits = all_hits(idx, q, terms, 0, Seq::<Hit>::empty());
    let sorted = sort_hits(hits, 0, Seq::<Hit>::empty());
    lemma_sort_hits_multiset(hits, 0, Seq::<Hit>::empty());
    assert(hits.subrange(0, hits.len() as int) =~= hits);
    assert(Seq::<Hit>::empty().to_multiset().add(hits.to_multiset()) =~= hits.to_multiset());
    assert(sorted.to_multiset().len() == sorted.len());
    assert(hits.to_multiset().len() == hits.len());
    lemma_sort_hits_sorted(hits, 0, Seq::<Hit>::empty());
    let cut = if limit < sorted.len() {
        sorted.subrange(0, limit)
    } else {
        sorted
    };
    assert(spec_search(idx, q, limit).len() == cut.len());
}

/// A document list with no repeated id.
pub open spec fn distinct_u32(s: Seq<u32>) -> bool {
    forall|i: int, j: int| 0 <= i < j < s.len() ==> s[i] != s[j]
}

/// A found dictionary slot lies in range.
proof fn lemma_find_term_bounds(
    ts: Seq<crate::segment::TermEntryModel>,
    field: u32,
    token: Seq<char>,
    i: int,
)
    requires
        find_term_from(ts, field, token, i) is Some,
    ensures
        i <= find_term_from(ts, field, token, i)->0 < ts.len(),
    decreases ts.len() - i,
{
    if 0 <= i < ts.len() && !(ts[i].field == field && ts[i].token == token) {
        lemma_find_term_bounds(ts, field, token, i + 1);
    }
}

/// In a well-formed segment a term's documents are pairwise distinct.
proof fn lemma_term_docs_distinct(seg: SegmentModel, field: u32, token: Seq<char>)
    requires
        crate::segment::segment_wf(seg),
    ensures
        distinct_u32(spec_term_docs(seg, field, token)),
{
    match find_term_from(seg.terms, field, token, 0) {
        Some(_) => {
            lemma_find_term_bounds(seg.terms, field, token, 0);
        },
        None => {},
    }
}

/// Filtering keeps distinctness: the kept documents come from a distinct
/// list, each at most once.
proof fn lemma_phrase_filter_distinct(
    seg: SegmentModel,
    field: u32,
    tokens: Seq<Seq<char>>,
    docs: Seq<u32>,
    k: int,
    acc: Seq<u32>,
)
    requires
        0 <= k <= docs.len(),
        distinct_u32(docs),
        distinct_u32(acc),
        forall|e: u32| acc.contains(e) ==> exists|j: int| 0 <= j < k && docs[j] == e,
    ensures
        distinct_u32(phrase_filter(seg, field, tokens, docs, k, acc)),
    decreases docs.len() - k,
{
    if k < docs.len() {
        if spec_phrase_match(seg, field, tokens, docs[k]) {
            let acc2 = acc.push(docs[k]);
            assert(!acc.contains(docs[k]));
            assert(distinct_u32(acc2)) by {
                assert forall|i: int, j: int| 0 <= i < j < acc2.len() implies acc2[i] != acc2[j] by {
                    if j == acc2.len() - 1 {
                        assert(acc.contains(acc[i]));
                    }
                }
            }
            assert forall|e: u32| acc2.contains(e) implies exists|j: int|
                0 <= j < k + 1 && docs[j] == e by {
                let w = choose|w: int| 0 <= w < acc2.len() && acc2[w] == e;
                if w < acc.len() {
                    assert(acc.contains(e));
                }
            }
            lemma_phrase_filter_distinct(seg, field, tokens, docs, k + 1, acc2);
        } else {
            lemma_phrase_filter_distinct(seg, field, tokens, docs, k + 1, acc);
        }
    }
}

/// Intersection keeps distinctness of its left operand.
proof fn lemma_intersect_distinct(a: Seq<u32>, b: Seq<u32>, k: int, acc: Seq<u32>)
    requires
        0 <= k <= a.len(),
        distinct_u32(a),
        distinct_u32(acc),
        forall|e: u32| acc.contains(e) ==> exists|j: int| 0 <= j < k && a[j] == e,
    ensures
        distinct_u32(spec_intersect(a, b, k, acc)),
    decreases a.len() - k,
{
    if k < a.len() {
        if b.contains(a[k]) {
            let acc2 = acc.push(a[k]);
            assert(!acc.contains(a[k]));
            assert(distinct_u32(acc2)) by {
                assert forall|i: int, j: int| 0 <= i < j < acc2.len() implies acc2[i] != acc2[j] by {
                    if j == acc2.len() - 1 {
                        assert(acc.contains(acc[i]));
                    }
                }
            }
            assert forall|e: u32| acc2.contains(e) implies exists|j: int|
                0 <= j < k + 1 && a[j] == e by {
                let w = choose|w: int| 0 <= w < acc2.len() && acc2[w] == e;
                if w < acc.len() {
                    assert(acc.contains(e));
                }
            }
            lemma_intersect_distinct(a, b, k + 1, acc2);
        } else {
            lemma_intersect_distinct(a, b, k + 1, acc);
        }
    }
}

/// Union keeps distinctness of its accumulator.
proof fn lemma_union_distinct(b: Seq<u32>, k: int, acc: Seq<u32>)
    requires
        0 <= k <= b.len(),
        distinct_u32(acc),
    ensures
        distinct_u32(spec_union(b, k, acc)),
    decreases b.len() - k,
{
    if k < b.len() {
        if !acc.contains(b[k]) {
            let acc2 = acc.push(b[k]);
            assert(distinct_u32(acc2)) by {
                assert forall|i: int, j: int| 0 <= i < j < acc2.len() implies acc2[i] != acc2[j] by {
                    if j == acc2.len() - 1 {
                        assert(acc.contains(acc[i]));
                    }
                }
            }
            lemma_union_distinct(b, k + 1, acc2);
        } else {
            lemma_union_distinct(b, k + 1, acc);
        }
    }
}

/// Against a well-formed segment, evaluation yields pairwise-distinct
/// documents.
proof fn lemma_eval_distinct(seg: SegmentModel, q: QueryModel)
    requires
        crate::segment::segment_wf(seg),
    ensures
        distinct_u32(spec_eval(seg, q)),
    decreases q, 0int,
{
    match q {
        QueryModel::Term { field, token } => {
            lemma_term_docs_distinct(seg, field, token);
        },
        QueryModel::Phrase { field, tokens } => {
            if tokens.len() > 0 {
                lemma_term_docs_distinct(seg, field, tokens[0]);
                lemma_phrase_filter_distinct(
                    seg,
                    field,
                    tokens,
                    spec_term_docs(seg, field, tokens[0]),
                    0,
                    Seq::<u32>::empty(),
                );
            }
        },
        QueryModel::And { children } => {
            if children.len() > 0 {
                lemma_eval_distinct(seg, children[0]);
                lemma_eval_and_distinct(seg, children, 1, spec_eval(seg, children[0]));
            }
        },
        QueryModel::Or { children } => {
            lemma_eval_or_distinct(seg, children, 0, Seq::<u32>::empty());
        },
    }
}

/// Folded intersections keep distinctness.
proof fn lemma_eval_and_distinct(seg: SegmentModel, cs: Seq<QueryModel>, k: int, acc: Seq<u32>)
    requires
        crate::segment::segment_wf(seg),
        distinct_u32(acc),
    ensures
        distinct_u32(eval_and(seg, cs, k, acc)),
    decreases cs, cs.len() - k,
{
    if 0 <= k < cs.len() {
        lemma_intersect_distinct(acc, spec_eval(seg, cs[k]), 0, Seq::<u32>::empty());
        lemma_eval_and_distinct(
            seg,
            cs,
            k + 1,
            spec_intersect(acc, spec_eval(seg, cs[k]), 0, Seq::<u32>::empty()),
        );
    }
}

/// Folded unions keep distinctness.
proof fn lemma_eval_or_distinct(seg: SegmentModel, cs: Seq<QueryModel>, k: int, acc: Seq<u32>)
    requires
        crate::segment::segment_wf(seg),
        distinct_u32(acc),
    ensures
        distinct_u32(eval_or(seg, cs, k, acc)),
    decreases cs, cs.len() - k,
{
    if 0 <= k < cs.len() {
        lemma_union_distinct(spec_eval(seg, cs[k]), 0, acc);
        lemma_eval_or_distinct(seg, cs, k + 1, spec_union(spec_eval(seg, cs[k]), 0, acc));
    }
}

/// A hit list with no repeated address.
pub open spec fn hits_addr_distinct(s: Seq<Hit>) -> bool {
    forall|i: int, j: int|
        0 <= i < j < s.len() ==> !((#[trigger] s[i]).seg == (#[trigger] s[j]).seg && s[i].doc
            == s[j].doc)
}

/// One segment's hits extend an address-distinct accumulator of earlier
/// segments without repeating an address.
proof fn lemma_seg_hits_distinct(
    idx: IndexModel,
    terms: Seq<(u32, Seq<char>)>,
    seg: SegmentModel,
    s_ord: u32,
    docs: Seq<u32>,
    k: int,
    acc: Seq<Hit>,
)
    requires
        0 <= k <= docs.len(),
        distinct_u32(docs),
        hits_addr_distinct(acc),
        forall|i: int|
            0 <= i < acc.len() ==> (#[trigger] acc[i]).seg < s_ord || (acc[i].seg == s_ord
                && exists|j: int| 0 <= j < k && docs[j] == acc[i].doc),
    ensures
        ({
            let r = seg_hits(idx, terms, seg, s_ord, docs, k, acc);
            &&& hits_addr_distinct(r)
            &&& forall|i: int|
                0 <= i < r.len() ==> (#[trigger] r[i]).seg < s_ord || (r[i].seg == s_ord && exists|
                    j: int,
                |
                    0 <= j < docs.len() && docs[j] == r[i].doc)
        }),
    decreases docs.len() - k,
{
    if k < docs.len() {
        let h = Hit {
            seg: s_ord,
            doc: docs[k],
            score: spec_doc_score(idx, terms, seg, docs[k], 0, 0) as u64,
        };
        let acc2 = acc.push(h);
        assert(hits_addr_distinct(acc2)) by {
            assert forall|i: int, j: int|
                0 <= i < j < acc2.len() implies !((#[trigger] acc2[i]).seg
                == (#[trigger] acc2[j]).seg && acc2[i].doc == acc2[j].doc) by {
                if j == acc2.len() - 1 {
                    if acc[i].seg == s_ord && acc[i].doc == docs[k] {
                        let w = choose|w: int| 0 <= w < k && docs[w] == acc[i].doc;
                        assert(docs[w] == docs[k]);
                    }
                }
            }
        }
        assert forall|i: int|
            0 <= i < acc2.len() implies (#[trigger] acc2[i]).seg < s_ord || (acc2[i].seg == s_ord
            && exists|j: int| 0 <= j < k + 1 && docs[j] == acc2[i].doc) by {
            if i < acc.len() && acc[i].seg == s_ord {
                let w = choose|w: int| 0 <= w < k && docs[w] == acc[i].doc;
                assert(0 <= w < k + 1 && docs[w] == acc2[i].doc);
            }
        }
        lemma_seg_hits_distinct(idx, terms, seg, s_ord, docs, k + 1, acc2);
    }
}

/// Across segments, every hit address stays distinct.
proof fn lemma_all_hits_distinct(
    idx: IndexModel,
    q: QueryModel,
    terms: Seq<(u32, Seq<char>)>,
    s: int,
    acc: Seq<Hit>,
)
    requires
        crate::segment::index_wf(idx),
        idx.segments.len() <= u32::MAX,
        0 <= s,
        hits_addr_distinct(acc),
        forall|i: int| 0 <= i < acc.len() ==> (#[trigger] acc[i]).seg < s,
    ensures
        hits_addr_distinct(all_hits(idx, q, terms, s, acc)),
    decreases idx.segments.len() - s,
{
    if s < idx.segments.len() {
        let seg = idx.segments[s];
        lemma_eval_distinct(seg, q);
        lemma_seg_hits_distinct(idx, terms, seg, s as u32, spec_eval(seg, q), 0, acc);
        let acc2 = seg_hits(idx, terms, seg, s as u32, spec_eval(seg, q), 0, acc);
        assert forall|i: int| 0 <= i < acc2.len() implies (#[trigger] acc2[i]).seg < s + 1 by {
            assert(acc2[i].seg < s as u32 || acc2[i].seg == s as u32);
        }
        lemma_all_hits_distinct(idx, q, terms, s + 1, acc2);
    }
}

/// Address distinctness carries across any permutation of the hits.
proof fn lemma_addr_distinct_permutation(a: Seq<Hit>, b: Seq<Hit>)
    requires
        a.to_multiset() == b.to_multiset(),
        hits_addr_distinct(a),
    ensures
        hits_addr_distinct(b),
{
    broadcast use vstd::seq_lib::group_to_multiset_ensures;

    assert forall|i: int, j: int|
        0 <= i < j < b.len() implies !((#[trigger] b[i]).seg == (#[trigger] b[j]).seg && b[i].doc
        == b[j].doc) by {
        if b[i].seg == b[j].seg && b[i].doc == b[j].doc {
            let x = b[i];
            let y = b[j];
            vstd::seq_lib::to_multiset_remove(b, i);
            assert(b.remove(i).to_multiset() == b.to_multiset().remove(x));
            b.remove_ensures(i);
            assert(b.remove(i)[j - 1] == y);
            assert(b.remove(i).contains(y));
            assert(b.to_multiset().remove(x).count(y) > 0);
            assert(b.contains(x));
            assert(b.to_multiset().count(x) > 0);
            assert(a.to_multiset().count(x) > 0);
            assert(a.contains(x));
            let ia = choose|w: int| 0 <= w < a.len() && a[w] == x;
            vstd::seq_lib::to_multiset_remove(a, ia);
            assert(a.remove(ia).to_multiset().count(y) > 0);
            assert(a.remove(ia).contains(y));
            let wy = choose|w: int| 0 <= w < a.remove(ia).len() && a.remove(ia)[w] == y;
            a.remove_ensures(ia);
            if wy < ia {
                assert(a[wy] == y);
            } else {
                assert(a[wy + 1] == y);
            }
            assert(false);
        }
    }
}

/// The searcher never returns one document twice: against a well-formed
/// index, the addresses of the ranked results are pairwise distinct.
pub proof fn lemma_search_distinct_addresses(idx: IndexModel, q: QueryModel, limit: int)
    requires
        crate::segment::index_wf(idx),
        idx.segments.len() <= u32::MAX,
        0 <= limit,
    ensures
        ({
            let r = spec_search(idx, q, limit);
            forall|i: int, j: int|
                0 <= i < j < r.len() ==> (#[trigger] r[i]).0 != (#[trigger] r[j]).0
        }),
{
    let terms = query_term_list(q);
    let hits = all_hits(idx, q, terms, 0, Seq::<Hit>::empty());
    let sorted = sort_hits(hits, 0, Seq::<Hit>::empty());
    lemma_all_hits_distinct(idx, q, terms, 0, Seq::<Hit>::empty());
    lemma_sort_hits_multiset(hits, 0, Seq::<Hit>::empty());
    broadcast use vstd::seq_lib::group_to_multiset_ensures;

    assert(hits.subrange(0, hits.len() as int) =~= hits);
    assert(Seq::<Hit>::empty().to_multiset().add(hits.to_multiset()) =~= hits.to_multiset());
    lemma_addr_distinct_permutation(hits, sorted);
    let cut = if limit < sorted.len() {
        sorted.subrange(0, limit)
    } else {
        sorted
    };
    let r = spec_search(idx, q, limit);
    assert forall|i: int, j: int|
        0 <= i < j < r.len() implies (#[trigger] r[i]).0 != (#[trigger] r[j]).0 by {
        assert(cut[i] == sorted[i] && cut[j] == sorted[j]);
        assert(!(sorted[i].seg == sorted[j].seg && sorted[i].doc == sorted[j].doc));
    }
}

} // verus!
