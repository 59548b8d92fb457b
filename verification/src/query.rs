//! The query parser.
//!
//! Parses a query string into a boolean/phrase tree over named fields.
//! Bare terms are OR'd across the default fields; `field:term` restricts a
//! term to one field; consecutive clauses are implicitly AND'd; quoted text
//! produces a phrase match over the default fields. Parsing fails on an
//! unknown field reference, an unterminated quote, and an empty query.

use vstd::prelude::*;

use crate::error::{Error, ParseReason};
use crate::schema::{Schema, SchemaModel};
use crate::tokenizer::{is_token_char, norm_char, spec_tokenize, tokenize};

verus! {

/// Ghost model of a query tree.
pub enum QueryModel {
    Term { field: u32, token: Seq<char> },
    Phrase { field: u32, tokens: Seq<Seq<char>> },
    And { children: Seq<QueryModel> },
    Or { children: Seq<QueryModel> },
}

/// A parsed query: a term restricted to one field, a phrase over one field,
/// or a conjunction or disjunction of subqueries.
#[derive(Debug)]
pub enum QueryNode {
    Term { field: u32, token: Vec<char> },
    Phrase { field: u32, tokens: Vec<Vec<char>> },
    And { children: Vec<QueryNode> },
    Or { children: Vec<QueryNode> },
}

/// The ghost model of a query node.
pub open spec fn qmodel(q: QueryNode) -> QueryModel
    decreases q,
{
    match q {
        QueryNode::Term { field, token } => QueryModel::Term { field, token: token@ },
        QueryNode::Phrase { field, tokens } => QueryModel::Phrase {
            field,
            tokens: crate::tokenizer::token_views(tokens@),
        },
        QueryNode::And { children } => QueryModel::And { children: qmodels(children@) },
        QueryNode::Or { children } => QueryModel::Or { children: qmodels(children@) },
    }
}

/// The ghost models of a list of query nodes.
pub open spec fn qmodels(qs: Seq<QueryNode>) -> Seq<QueryModel>
    decreases qs,
{
    if qs.len() == 0 {
        Seq::<QueryModel>::empty()
    } else {
        qmodels(qs.drop_last()).push(qmodel(qs.last()))
    }
}

/// The model list is the element-wise model of the node list.
pub proof fn lemma_qmodels_index(qs: Seq<QueryNode>)
    ensures
        qmodels(qs).len() == qs.len(),
        forall|i: int| 0 <= i < qs.len() ==> qmodels(qs)[i] == qmodel(qs[i]),
    decreases qs.len(),
{
    if qs.len() > 0 {
        lemma_qmodels_index(qs.drop_last());
        assert forall|i: int| 0 <= i < qs.len() implies qmodels(qs)[i] == qmodel(qs[i]) by {
            if i < qs.len() - 1 {
                assert(qs.drop_last()[i] == qs[i]);
            }
        }
    }
}

/// Models distribute over push.
pub proof fn lemma_qmodels_push(qs: Seq<QueryNode>, q: QueryNode)
    ensures
        qmodels(qs.push(q)) == qmodels(qs).push(qmodel(q)),
{
    assert(qs.push(q).drop_last() =~= qs);
    assert(qs.push(q).last() == q);
}

/// Word and quote scans stay within the string.
pub proof fn lemma_word_end_bounds(s: Seq<char>, i: int)
    requires
        0 <= i <= s.len(),
    ensures
        i <= word_end(s, i) <= s.len(),
    decreases s.len() - i,
{
    if i < s.len() && is_token_char(s[i]) {
        lemma_word_end_bounds(s, i + 1);
    }
}

/// The quote scan stays within the string.
pub proof fn lemma_quote_end_bounds(s: Seq<char>, i: int)
    requires
        0 <= i <= s.len(),
    ensures
        i <= quote_end(s, i) <= s.len(),
    decreases s.len() - i,
{
    if i < s.len() && s[i] != '"' {
        lemma_quote_end_bounds(s, i + 1);
    }
}

/// The end of the token-character run starting at `i`.
pub open spec fn word_end(s: Seq<char>, i: int) -> int
    decreases s.len() - i,
{
    if i < 0 || i >= s.len() {
        s.len() as int
    } else if is_token_char(s[i]) {
        word_end(s, i + 1)
    } else {
        i
    }
}

/// The position of the next `'"'` at or after `i`, or the length when none.
pub open spec fn quote_end(s: Seq<char>, i: int) -> int
    decreases s.len() - i,
{
    if i < 0 || i >= s.len() {
        s.len() as int
    } else if s[i] == '"' {
        i
    } else {
        quote_end(s, i + 1)
    }
}

/// The normalized characters of `s[i..e]`.
pub open spec fn norm_word(s: Seq<char>, i: int, e: int) -> Seq<char> {
    Seq::new(if e >= i {
        (e - i) as nat
    } else {
        0
    }, |j: int| norm_char(s[i + j]))
}

/// A bare term: OR of the term over every default field.
pub open spec fn spec_or_term(defaults: Seq<u32>, token: Seq<char>) -> QueryModel {
    QueryModel::Or {
        children: Seq::new(defaults.len(), |j: int| QueryModel::Term { field: defaults[j], token }),
    }
}

/// A bare phrase: OR of the phrase over every default field.
pub open spec fn spec_or_phrase(defaults: Seq<u32>, tokens: Seq<Seq<char>>) -> QueryModel {
    QueryModel::Or {
        children: Seq::new(
            defaults.len(),
            |j: int| QueryModel::Phrase { field: defaults[j], tokens },
        ),
    }
}

/// One pass of the clause scanner from position `i` with the clauses
/// collected so far.
pub open spec fn spec_scan(
    schema: SchemaModel,
    defaults: Seq<u32>,
    s: Seq<char>,
    i: int,
    acc: Seq<QueryModel>,
) -> Result<Seq<QueryModel>, Error>
    decreases s.len() - i
        via spec_scan_decreases
{
    if i < 0 || i >= s.len() {
        Ok(acc)
    } else if s[i] == '"' {
        let e = quote_end(s, i + 1);
        if e >= s.len() {
            Err(Error::ParseError(ParseReason::UnterminatedQuote, i as usize))
        } else {
            let toks = spec_tokenize(s.subrange(i + 1, e));
            let acc2 = if toks.len() == 0 {
                acc
            } else {
                acc.push(spec_or_phrase(defaults, toks))
            };
            spec_scan(schema, defaults, s, e + 1, acc2)
        }
    } else if is_token_char(s[i]) {
        let e = word_end(s, i + 1);
        let w = norm_word(s, i, e);
        if e < s.len() && s[e] == ':' {
            match schema.spec_get_field(w) {
                None => Err(Error::ParseError(ParseReason::UnknownField, i as usize)),
                Some(fid) => {
                    if e + 1 < s.len() && is_token_char(s[e + 1]) {
                        let e2 = word_end(s, e + 2);
                        let t = norm_word(s, e + 1, e2);
                        spec_scan(
                            schema,
                            defaults,
                            s,
                            e2,
                            acc.push(QueryModel::Term { field: fid, token: t }),
                        )
                    } else {
                        Err(Error::ParseError(ParseReason::EmptyTerm, (e + 1) as usize))
                    }
                },
            }
        } else {
            spec_scan(schema, defaults, s, e, acc.push(spec_or_term(defaults, w)))
        }
    } else {
        spec_scan(schema, defaults, s, i + 1, acc)
    }
}

#[via_fn]
proof fn spec_scan_decreases(
    schema: SchemaModel,
    defaults: Seq<u32>,
    s: Seq<char>,
    i: int,
    acc: Seq<QueryModel>,
) {
    if 0 <= i < s.len() {
        lemma_quote_end_bounds(s, i + 1);
        lemma_word_end_bounds(s, i + 1);
        let e = word_end(s, i + 1);
        if e + 2 <= s.len() {
            lemma_word_end_bounds(s, e + 2);
        }
    }
}

/// What parsing a query string yields: the conjunction of its clauses, a
/// single clause on its own, or the error the scanner stopped at; an empty
/// clause list is rejected as an empty query.
pub open spec fn spec_parse_query(schema: SchemaModel, defaults: Seq<u32>, s: Seq<char>) -> Result<
    QueryModel,
    Error,
> {
    match spec_scan(schema, defaults, s, 0, Seq::<QueryModel>::empty()) {
        Err(e) => Err(e),
        Ok(clauses) => if clauses.len() == 0 {
            Err(Error::ParseError(ParseReason::EmptyQuery, 0))
        } else if clauses.len() == 1 {
            Ok(clauses[0])
        } else {
            Ok(QueryModel::And { children: clauses })
        },
    }
}

/// Find the end of the token-character run starting at `i`.
#[verifier::loop_isolation(false)]
fn exec_word_end(s: &str, i: usize) -> (e: usize)
    requires
        i <= s@.len(),
    ensures
        e == word_end(s@, i as int),
        i <= e <= s@.len(),
{
    let n = s.unicode_len();
    let mut j: usize = i;
    while j < n
        invariant
            i <= j <= n == s@.len(),
            word_end(s@, i as int) == word_end(s@, j as int),
        decreases n - j,
    {
        let c = s.get_char(j);
        let u = c as u32;
        if !((97 <= u && u <= 122) || (65 <= u && u <= 90) || (48 <= u && u <= 57)) {
            return j;
        }
        j = j + 1;
    }
    n
}

/// Find the next `'"'` at or after `i`.
#[verifier::loop_isolation(false)]
fn exec_quote_end(s: &str, i: usize) -> (e: usize)
    requires
        i <= s@.len(),
    ensures
        e == quote_end(s@, i as int),
        i <= e <= s@.len(),
{
    let n = s.unicode_len();
    let mut j: usize = i;
    while j < n
        invariant
            i <= j <= n == s@.len(),
            quote_end(s@, i as int) == quote_end(s@, j as int),
        decreases n - j,
    {
        let c = s.get_char(j);
        if c == '"' {
            return j;
        }
        j = j + 1;
    }
    n
}

/// Copy the normalized characters of `s[i..e]` into an owned token.
#[verifier::loop_isolation(false)]
fn exec_norm_word(s: &str, i: usize, e: usize) -> (w: Vec<char>)
    requires
        i <= e <= s@.len(),
    ensures
        w@ == norm_word(s@, i as int, e as int),
{
    let mut w: Vec<char> = Vec::new();
    let mut j: usize = i;
    while j < e
        invariant
            i <= j <= e <= s@.len(),
            w@ =~= norm_word(s@, i as int, j as int),
        decreases e - j,
    {
        let c = s.get_char(j);
        let u = c as u32;
        let nc = if 65 <= u && u <= 90 {
            ((c as u8) + 32) as char
        } else {
            c
        };
        w.push(nc);
        proof {
            assert(w@ =~= norm_word(s@, i as int, j + 1));
        }
        j = j + 1;
    }
    proof {
        assert(w@ =~= norm_word(s@, i as int, e as int));
    }
    w
}

/// Copy a substring of `s` as an owned string slice holder.
#[verifier::loop_isolation(false)]
fn exec_substring(s: &str, i: usize, e: usize) -> (r: String)
    requires
        i <= e <= s@.len(),
    ensures
        r@ == s@.subrange(i as int, e as int),
{
    let sub = s.substring_char(i, e);
    String::from_str(sub)
}

/// Build the OR-across-defaults node for a bare term.
#[verifier::loop_isolation(false)]
fn exec_or_term(defaults: &Vec<u32>, token: Vec<char>) -> (r: QueryNode)
    ensures
        qmodel(r) == spec_or_term(defaults@, token@),
{
    let mut children: Vec<QueryNode> = Vec::new();
    let n = defaults.len();
    let mut j: usize = 0;
    while j < n
        invariant
            0 <= j <= n == defaults@.len(),
            qmodels(children@) =~= Seq::new(
                j as nat,
                |m: int| QueryModel::Term { field: defaults@[m], token: token@ },
            ),
        decreases n - j,
    {
        let mut tok: Vec<char> = Vec::new();
        let tl = token.len();
        let mut p: usize = 0;
        while p < tl
            invariant
                0 <= p <= tl == token@.len(),
                tok@ =~= token@.subrange(0, p as int),
            decreases tl - p,
        {
            tok.push(token[p]);
            p = p + 1;
        }
        proof {
            assert(tok@ =~= token@);
        }
        let ghost children0 = children@;
        let node = QueryNode::Term { field: defaults[j], token: tok };
        children.push(node);
        proof {
            lemma_qmodels_push(children0, node);
            assert(qmodels(children@) =~= Seq::new(
                (j + 1) as nat,
                |m: int| QueryModel::Term { field: defaults@[m], token: token@ },
            ));
        }
        j = j + 1;
    }
    let r = QueryNode::Or { children };
    proof {
        assert(qmodel(r) == spec_or_term(defaults@, token@));
    }
    r
}

/// Build the OR-across-defaults node for a bare phrase.
#[verifier::loop_isolation(false)]
fn exec_or_phrase(defaults: &Vec<u32>, tokens: &Vec<Vec<char>>) -> (r: QueryNode)
    ensures
        qmodel(r) == spec_or_phrase(defaults@, crate::tokenizer::token_views(tokens@)),
{
    let ghost tv = crate::tokenizer::token_views(tokens@);
    let mut children: Vec<QueryNode> = Vec::new();
    let n = defaults.len();
    let mut j: usize = 0;
    while j < n
        invariant
            0 <= j <= n == defaults@.len(),
            tv == crate::tokenizer::token_views(tokens@),
            qmodels(children@) =~= Seq::new(
                j as nat,
                |m: int| QueryModel::Phrase { field: defaults@[m], tokens: tv },
            ),
        decreases n - j,
    {
        let mut toks: Vec<Vec<char>> = Vec::new();
        let tn = tokens.len();
        let mut q: usize = 0;
        while q < tn
            invariant
                0 <= q <= tn == tokens@.len(),
                crate::tokenizer::token_views(toks@) =~= tv.subrange(0, q as int),
            decreases tn - q,
        {
            let mut tok: Vec<char> = Vec::new();
            let tl = tokens[q].len();
            let mut p: usize = 0;
            while p < tl
                invariant
                    0 <= p <= tl == tokens@[q as int]@.len(),
                    q < tokens@.len(),
                    tok@ =~= tokens@[q as int]@.subrange(0, p as int),
                decreases tl - p,
            {
                tok.push(tokens[q][p]);
                p = p + 1;
            }
            proof {
                assert(tok@ =~= tokens@[q as int]@);
            }
            toks.push(tok);
            proof {
                assert(crate::tokenizer::token_views(toks@) =~= tv.subrange(0, q + 1));
            }
            q = q + 1;
        }
        proof {
            assert(crate::tokenizer::token_views(toks@) =~= tv);
        }
        let ghost children0 = children@;
        let node = QueryNode::Phrase { field: defaults[j], tokens: toks };
        children.push(node);
        proof {
            lemma_qmodels_push(children0, node);
            assert(qmodels(children@) =~= Seq::new(
                (j + 1) as nat,
                |m: int| QueryModel::Phrase { field: defaults@[m], tokens: tv },
            ));
        }
        j = j + 1;
    }
    let r = QueryNode::Or { children };
    proof {
        assert(qmodel(r) == spec_or_phrase(defaults@, tv));
    }
    r
}

/// Parse a query string against a schema, with bare clauses spanning the
/// given default fields.
#[verifier::loop_isolation(false)]
pub fn parse_query(schema: &Schema, defaults: &Vec<u32>, s: &str) -> (r: Result<QueryNode, Error>)
    requires
        schema.fields@.len() <= u32::MAX,
    ensures
        ({
            let sr = spec_parse_query(schema.deep_view(), defaults@, s@);
            match r {
                Ok(q) => sr == Ok::<QueryModel, Error>(qmodel(q)),
                Err(e) => sr == Err::<QueryModel, Error>(e),
            }
        }),
{
    let n = s.unicode_len();
    let mut acc: Vec<QueryNode> = Vec::new();
    let mut i: usize = 0;
    proof {
        assert(qmodels(acc@) =~= Seq::<QueryModel>::empty());
    }
    while i < n
        invariant
            0 <= i <= n == s@.len(),
            spec_scan(schema.deep_view(), defaults@, s@, 0, Seq::<QueryModel>::empty())
                == spec_scan(schema.deep_view(), defaults@, s@, i as int, qmodels(acc@)),
        decreases n - i,
    {
        let ghost acc0 = qmodels(acc@);
        let c = s.get_char(i);
        let u = c as u32;
        if c == '"' {
            let e = exec_quote_end(s, i + 1);
            if e >= n {
                return Err(Error::ParseError(ParseReason::UnterminatedQuote, i));
            }
            let content = exec_substring(s, i + 1, e);
            let toks = tokenize(content.as_str());
            if toks.len() > 0 {
                let node = exec_or_phrase(defaults, &toks);
                let ghost pre = acc@;
                acc.push(node);
                proof {
                    lemma_qmodels_push(pre, node);
                    assert(qmodels(acc@) =~= acc0.push(
                        spec_or_phrase(defaults@, spec_tokenize(s@.subrange(i + 1, e as int))),
                    ));
                }
            } else {
                proof {
                    assert(spec_tokenize(s@.subrange(i + 1, e as int)).len() == 0);
                }
            }
            i = e + 1;
        } else if (97 <= u && u <= 122) || (65 <= u && u <= 90) || (48 <= u && u <= 57) {
            let e = exec_word_end(s, i + 1);
            let w = exec_norm_word(s, i, e);
            proof {
                assert(word_end(s@, i as int) == word_end(s@, i + 1));
                assert(w@ == norm_word(s@, i as int, e as int));
            }
            if e < n && s.get_char(e) == ':' {
                let word_str = vec_char_to_string(&w);
                match schema.get_field(word_str.as_str()) {
                    None => {
                        return Err(Error::ParseError(ParseReason::UnknownField, i));
                    },
                    Some(fid) => {
                        if e + 1 < n {
                            let c2 = s.get_char(e + 1);
                            let u2 = c2 as u32;
                            if (97 <= u2 && u2 <= 122) || (65 <= u2 && u2 <= 90) || (48 <= u2 && u2
                                <= 57) {
                                let e2 = exec_word_end(s, e + 2);
                                let t = exec_norm_word(s, e + 1, e2);
                                proof {
                                    assert(word_end(s@, e + 1) == word_end(s@, e + 2));
                                }
                                let ghost pre = acc@;
                                let node = QueryNode::Term { field: fid, token: t };
                                acc.push(node);
                                proof {
                                    lemma_qmodels_push(pre, node);
                                    assert(qmodels(acc@) =~= acc0.push(
                                        QueryModel::Term {
                                            field: fid,
                                            token: norm_word(s@, e + 1, word_end(s@, e + 2)),
                                        },
                                    ));
                                }
                                i = e2;
                            } else {
                                return Err(Error::ParseError(ParseReason::EmptyTerm, e + 1));
                            }
                        } else {
                            return Err(Error::ParseError(ParseReason::EmptyTerm, e + 1));
                        }
                    },
                }
            } else {
                let node = exec_or_term(defaults, w);
                let ghost pre = acc@;
                acc.push(node);
                proof {
                    lemma_qmodels_push(pre, node);
                    assert(qmodels(acc@) =~= acc0.push(
                        spec_or_term(defaults@, norm_word(s@, i as int, e as int)),
                    ));
                }
                i = e;
            }
        } else {
            i = i + 1;
        }
    }
    proof {
        lemma_qmodels_index(acc@);
    }
    if acc.len() == 0 {
        return Err(Error::ParseError(ParseReason::EmptyQuery, 0));
    }
    if acc.len() == 1 {
        let ghost full = acc@;
        let q = match acc.pop() {
            Some(q) => q,
            None => {
                proof {
                    assert(false);
                }
                QueryNode::And { children: Vec::new() }
            },
        };
        proof {
            lemma_qmodels_index(full);
            assert(full[0] == q);
            assert(qmodels(full)[0] == qmodel(q));
        }
        return Ok(q);
    }
    Ok(QueryNode::And { children: acc })
}

/// Copy an owned token into a `String` so it can be looked up by name.
fn vec_char_to_string(w: &Vec<char>) -> (r: String)
    ensures
        r@ == w@,
{
    let mut r = String::new();
    let n = w.len();
    let mut i: usize = 0;
    while i < n
        invariant
            0 <= i <= n == w@.len(),
            r@ =~= w@.subrange(0, i as int),
        decreases n - i,
    {
        crate::strutil::push_char(&mut r, w[i]);
        i = i + 1;
    }
    proof {
        assert(r@ =~= w@);
    }
    r
}

} // verus!
