use scrapq::address::{doc_address_to_string, string_to_doc_address, DocAddress};
use scrapq::builder::{Builder, DocField, Document};
use scrapq::bundle::{build_index, Page, ScrapBox};
use scrapq::codec::{decode_index, encode_index};
use scrapq::error::{Error, ParseReason};
use scrapq::query::{parse_query, QueryNode};
use scrapq::schema::default_schema;
use scrapq::segment::{Index, Posting, Segment, StoredDoc, TermEntry};
use scrapq::search::{search, search_documents};
use scrapq::store::{fetch, retrieve_document, stored_value, GetResult};
use scrapq::tokenizer::tokenize;

fn sample_bundle() -> ScrapBox {
    ScrapBox {
        name: "x".to_string(),
        pages: vec![
            Page { title: "Alpha".to_string(), lines: vec!["hello world".to_string()] },
            Page {
                title: "Beta".to_string(),
                lines: vec!["hello there".to_string(), "second line".to_string()],
            },
        ],
    }
}

#[test]
fn test_convert_doc_address() {
    let s = "1:2";
    let addr = string_to_doc_address(s).unwrap();
    assert_eq!(doc_address_to_string(addr), s);
}

#[test]
fn address_round_trip_values() {
    let a = DocAddress { segment_ord: 0, doc_id: 0 };
    assert_eq!(string_to_doc_address(&doc_address_to_string(a)).unwrap(), a);
    let b = DocAddress { segment_ord: 4294967295, doc_id: 1000000 };
    assert_eq!(doc_address_to_string(b), "4294967295:1000000");
    assert_eq!(string_to_doc_address("4294967295:1000000").unwrap(), b);
}

#[test]
fn address_missing_separator() {
    assert_eq!(
        string_to_doc_address("12"),
        Err(Error::ParseError(ParseReason::MissingSeparator, 2))
    );
}

#[test]
fn address_non_numeric_components() {
    assert_eq!(string_to_doc_address("a:1"), Err(Error::ParseError(ParseReason::InvalidNumber, 0)));
    assert_eq!(string_to_doc_address("1:b"), Err(Error::ParseError(ParseReason::InvalidNumber, 2)));
    assert_eq!(string_to_doc_address(":1"), Err(Error::ParseError(ParseReason::InvalidNumber, 0)));
    assert_eq!(string_to_doc_address("1:"), Err(Error::ParseError(ParseReason::InvalidNumber, 2)));
    assert_eq!(
        string_to_doc_address("1:2:3"),
        Err(Error::ParseError(ParseReason::InvalidNumber, 2))
    );
}

#[test]
fn address_overflow_rejected() {
    assert_eq!(
        string_to_doc_address("4294967296:0"),
        Err(Error::ParseError(ParseReason::InvalidNumber, 0))
    );
}

#[test]
fn tokenizer_normalizes_and_splits() {
    let toks = tokenize("Hello, World!");
    assert_eq!(
        toks,
        vec![vec!['h', 'e', 'l', 'l', 'o'], vec!['w', 'o', 'r', 'l', 'd']]
    );
}

#[test]
fn tokenizer_empty_and_separators() {
    assert_eq!(tokenize(""), Vec::<Vec<char>>::new());
    assert_eq!(tokenize("  ,;  "), Vec::<Vec<char>>::new());
    assert_eq!(tokenize("a1-b2"), vec![vec!['a', '1'], vec!['b', '2']]);
}

#[test]
fn scenario_ingest_and_query_hello() {
    let index = build_index(&sample_bundle());
    let results = search_documents(&index, "hello").unwrap();
    assert_eq!(results.len(), 2);
    for r in &results {
        assert!(string_to_doc_address(&r.address).is_ok());
    }
    let first = string_to_doc_address(&results[0].address).unwrap();
    let body = retrieve_document(&index, &results[0].address).unwrap();
    if results[0].title == "Alpha" {
        assert_eq!(body, "hello world");
        assert_eq!(first.doc_id, 0);
    } else {
        assert_eq!(results[0].title, "Beta");
        assert_eq!(body, "hello there\nsecond line");
        assert_eq!(first.doc_id, 1);
    }
}

#[test]
fn scenario_title_alpha_single_result() {
    let index = build_index(&sample_bundle());
    let results = search_documents(&index, "title:Alpha").unwrap();
    assert_eq!(results.len(), 1);
    assert_eq!(results[0].title, "Alpha");
    let body = retrieve_document(&index, &results[0].address).unwrap();
    assert_eq!(body, "hello world");
}

#[test]
fn scenario_bad_queries_fail() {
    let index = build_index(&sample_bundle());
    match search_documents(&index, "") {
        Err(Error::ParseError(ParseReason::EmptyQuery, _)) => {},
        other => panic!("unexpected: {:?}", other),
    }
    match search_documents(&index, "nosuchfield:term") {
        Err(Error::ParseError(ParseReason::UnknownField, _)) => {},
        Err(Error::FieldNotFound) => {},
        other => panic!("unexpected: {:?}", other),
    }
}

#[test]
fn boundary_empty_query_is_parse_error() {
    let index = build_index(&sample_bundle());
    match search_documents(&index, "   ") {
        Err(Error::ParseError(ParseReason::EmptyQuery, _)) => {},
        other => panic!("unexpected: {:?}", other),
    }
}

#[test]
fn boundary_limit_zero_returns_empty() {
    let index = build_index(&sample_bundle());
    let q = QueryNode::Term { field: 0, token: vec!['a', 'l', 'p', 'h', 'a'] };
    let results = search(&index, &q, 0).unwrap();
    assert!(results.is_empty());
}

#[test]
fn boundary_fetch_out_of_range_is_invalid_address() {
    let index = build_index(&sample_bundle());
    assert!(matches!(
        fetch(&index, DocAddress { segment_ord: 0, doc_id: 99 }),
        Err(Error::InvalidAddress)
    ));
    assert!(matches!(
        fetch(&index, DocAddress { segment_ord: 7, doc_id: 0 }),
        Err(Error::InvalidAddress)
    ));
    assert_eq!(retrieve_document(&index, "0:99"), Err(Error::InvalidAddress));
}

#[test]
fn ranking_higher_term_frequency_ranks_first() {
    let sb = ScrapBox {
        name: "r".to_string(),
        pages: vec![
            Page { title: "one".to_string(), lines: vec!["apple".to_string()] },
            Page {
                title: "two".to_string(),
                lines: vec!["apple apple banana".to_string()],
            },
        ],
    };
    let index = build_index(&sb);
    let results = search_documents(&index, "apple").unwrap();
    assert_eq!(results.len(), 2);
    assert_eq!(results[0].title, "two");
    assert_eq!(results[1].title, "one");
}

#[test]
fn determinism_identical_queries_identical_results() {
    let index = build_index(&sample_bundle());
    let a = search_documents(&index, "hello world").unwrap();
    let b = search_documents(&index, "hello world").unwrap();
    assert_eq!(a.len(), b.len());
    for i in 0..a.len() {
        assert_eq!(a[i].address, b[i].address);
        assert_eq!(a[i].title, b[i].title);
    }
}

#[test]
fn implicit_and_between_bare_terms() {
    let index = build_index(&sample_bundle());
    let results = search_documents(&index, "hello world").unwrap();
    assert_eq!(results.len(), 1);
    assert_eq!(results[0].title, "Alpha");
}

#[test]
fn phrase_query_requires_adjacency() {
    let index = build_index(&sample_bundle());
    let results = search_documents(&index, "\"hello world\"").unwrap();
    assert_eq!(results.len(), 1);
    assert_eq!(results[0].title, "Alpha");
    let none = search_documents(&index, "\"world hello\"").unwrap();
    assert_eq!(none.len(), 0);
}

#[test]
fn parse_errors_unterminated_quote_and_empty_term() {
    let schema = default_schema();
    let defaults = vec![0u32, 1u32];
    match parse_query(&schema, &defaults, "\"abc") {
        Err(Error::ParseError(ParseReason::UnterminatedQuote, 0)) => {},
        other => panic!("unexpected: {:?}", other),
    }
    match parse_query(&schema, &defaults, "title:") {
        Err(Error::ParseError(ParseReason::EmptyTerm, 6)) => {},
        other => panic!("unexpected: {:?}", other),
    }
}

#[test]
fn builder_rejects_unknown_field() {
    let mut b = Builder::new(default_schema());
    let doc = Document {
        fields: vec![DocField { name: "oops".to_string(), values: vec!["v".to_string()] }],
    };
    assert_eq!(b.add_document(&doc), Err(Error::SchemaMismatch));
}

#[test]
fn builder_closed_after_finish() {
    let mut b = Builder::new(default_schema());
    let doc = Document {
        fields: vec![DocField { name: "title".to_string(), values: vec!["t".to_string()] }],
    };
    assert_eq!(b.add_document(&doc), Ok(0));
    assert!(b.finish().is_ok());
    assert_eq!(b.add_document(&doc), Err(Error::BuilderClosed));
    assert!(matches!(b.finish(), Err(Error::BuilderClosed)));
}

#[test]
fn codec_round_trips_through_bytes() {
    let index = build_index(&sample_bundle());
    let bytes = encode_index(&index).unwrap();
    let decoded = decode_index(&bytes).unwrap();
    let bytes2 = encode_index(&decoded).unwrap();
    assert_eq!(bytes, bytes2);
    let results = search_documents(&decoded, "title:Beta").unwrap();
    assert_eq!(results.len(), 1);
    assert_eq!(retrieve_document(&decoded, &results[0].address).unwrap(), "hello there\nsecond line");
}

#[test]
fn codec_rejects_bad_checksum() {
    let index = build_index(&sample_bundle());
    let mut bytes = encode_index(&index).unwrap();
    let last = bytes.len() - 1;
    bytes[last] = bytes[last].wrapping_add(1);
    assert!(matches!(decode_index(&bytes), Err(Error::CorruptIndex)));
}

#[test]
fn codec_rejects_bad_framing_and_payload() {
    assert!(matches!(decode_index(&vec![1u8, 2, 3]), Err(Error::CorruptIndex)));
    // A well-framed image whose payload claims one field but holds none.
    let words: Vec<u32> = vec![0x53435251, 1];
    let mut bytes: Vec<u8> = Vec::new();
    let mut sum: u64 = 0;
    for w in &words {
        sum = (sum + *w as u64) % 0x100000000;
        bytes.extend_from_slice(&w.to_le_bytes());
    }
    bytes.extend_from_slice(&(sum as u32).to_le_bytes());
    assert!(matches!(decode_index(&bytes), Err(Error::IndexCorrupt)));
}

#[test]
fn search_result_line_is_tab_separated() {
    let index = build_index(&sample_bundle());
    let results = search_documents(&index, "title:Alpha").unwrap();
    let line = results[0].to_line();
    assert_eq!(line, format!("{}\t{}", results[0].address, results[0].title));
    assert!(line.contains('\t'));
}

#[test]
fn field_restriction_excludes_other_fields() {
    let index = build_index(&sample_bundle());
    // "world" occurs only in Alpha's body, so a title-restricted query finds
    // nothing while a body-restricted one finds Alpha.
    assert_eq!(search_documents(&index, "title:world").unwrap().len(), 0);
    let body_hits = search_documents(&index, "body:world").unwrap();
    assert_eq!(body_hits.len(), 1);
    assert_eq!(body_hits[0].title, "Alpha");
}

#[test]
fn get_result_carries_title_and_body() {
    let index = build_index(&sample_bundle());
    let doc = fetch(&index, DocAddress { segment_ord: 0, doc_id: 1 }).unwrap();
    let r = GetResult {
        title: stored_value(doc, 0).unwrap(),
        body: stored_value(doc, 1).unwrap(),
    };
    assert_eq!(r.title, "Beta");
    assert_eq!(r.body, "hello there\nsecond line");
}

#[test]
fn search_rejects_structurally_invalid_index() {
    // A segment whose postings repeat a document id fails structural
    // validation during read.
    let bad = Index {
        schema: default_schema(),
        segments: vec![Segment {
            terms: vec![TermEntry {
                field: 0,
                token: vec!['a'],
                postings: vec![
                    Posting { doc_id: 0, positions: vec![0] },
                    Posting { doc_id: 0, positions: vec![1] },
                ],
            }],
            docs: vec![StoredDoc { fields: vec![] }],
        }],
    };
    assert!(matches!(search_documents(&bad, "a"), Err(Error::IndexCorrupt)));
    let q = QueryNode::Term { field: 0, token: vec!['a'] };
    assert!(matches!(search(&bad, &q, 10), Err(Error::IndexCorrupt)));
}

#[test]
fn decode_accepts_every_encoded_index() {
    // Round-trip images of several shapes, including an empty one.
    let empty = ScrapBox { name: "e".to_string(), pages: vec![] };
    for sb in [empty, sample_bundle()] {
        let index = build_index(&sb);
        let bytes = encode_index(&index).unwrap();
        assert!(decode_index(&bytes).is_ok());
    }
}
