//! The document store.
//!
//! Given a document address, returns the stored field values of that
//! document. A pure read: an out-of-range segment ordinal or local document
//! id is rejected with `InvalidAddress`, a field that was not stored with
//! `FieldNotFound`.

use vstd::prelude::*;

use crate::address::{spec_parse_addr, string_to_doc_address, DocAddress};
use crate::error::Error;
use crate::segment::{FieldValuesModel, Index, IndexModel, StoredDoc, StoredDocModel};

verus! {

/// A fully materialized document: its stored title and body text.
pub struct GetResult {
    pub title: String,
    pub body: String,
}

/// The first stored-field entry at or after `i` for the given field id.
pub open spec fn find_stored_from(fields: Seq<FieldValuesModel>, fid: u32, i: int) -> Option<int>
    decreases fields.len() - i,
{
    if i < 0 || i >= fields.len() {
        None
    } else if fields[i].field == fid {
        Some(i)
    } else {
        find_stored_from(fields, fid, i + 1)
    }
}

/// What fetching a document yields: its stored block, or `InvalidAddress`
/// when the segment ordinal or local document id is out of range.
pub open spec fn spec_fetch(idx: IndexModel, addr: DocAddress) -> Result<StoredDocModel, Error> {
    if addr.segment_ord >= idx.segments.len() {
        Err(Error::InvalidAddress)
    } else if addr.doc_id >= idx.segments[addr.segment_ord as int].docs.len() {
        Err(Error::InvalidAddress)
    } else {
        Ok(idx.segments[addr.segment_ord as int].docs[addr.doc_id as int])
    }
}

/// The first stored value of one field of the addressed document, if the
/// address is in range, the field is present and it has a value.
pub open spec fn spec_stored_value(idx: IndexModel, addr: DocAddress, fid: u32) -> Option<
    Seq<char>,
> {
    match spec_fetch(idx, addr) {
        Err(_) => None,
        Ok(doc) => match find_stored_from(doc.fields, fid, 0) {
            None => None,
            Some(i) => if doc.fields[i].values.len() > 0 {
                Some(doc.fields[i].values[0])
            } else {
                None
            },
        },
    }
}

/// Fetch the stored fields of the addressed document.
pub fn fetch(index: &Index, addr: DocAddress) -> (r: Result<&StoredDoc, Error>)
    ensures
        ({
            let sr = spec_fetch(index.deep_view(), addr);
            match r {
                Ok(d) => sr == Ok::<StoredDocModel, Error>(d.deep_view()),
                Err(e) => sr == Err::<StoredDocModel, Error>(e),
            }
        }),
{
    let ns = index.segments.len();
    if addr.segment_ord as usize >= ns {
        return Err(Error::InvalidAddress);
    }
    let seg = &index.segments[addr.segment_ord as usize];
    proof {
        assert(index.segments.deep_view()[addr.segment_ord as int] == index.segments@[
            addr.segment_ord as int
        ].deep_view());
    }
    if addr.doc_id as usize >= seg.docs.len() {
        return Err(Error::InvalidAddress);
    }
    let doc = &seg.docs[addr.doc_id as usize];
    proof {
        assert(seg.docs.deep_view()[addr.doc_id as int] == seg.docs@[addr.doc_id as int
        ].deep_view());
    }
    Ok(doc)
}

/// The first stored value of one field of a stored document, cloned out.
#[verifier::loop_isolation(false)]
pub fn stored_value(doc: &StoredDoc, fid: u32) -> (r: Option<String>)
    ensures
        ({
            let f = find_stored_from(doc.deep_view().fields, fid, 0);
            match r {
                Some(v) => {
                    &&& f is Some
                    &&& doc.deep_view().fields[f->0].values.len() > 0
                    &&& v@ == doc.deep_view().fields[f->0].values[0]
                },
                None => f is None || doc.deep_view().fields[f->0].values.len() == 0,
            }
        }),
{
    let n = doc.fields.len();
    let mut i: usize = 0;
    while i < n
        invariant
            0 <= i <= n == doc.fields@.len(),
            find_stored_from(doc.deep_view().fields, fid, 0) == find_stored_from(
                doc.deep_view().fields,
                fid,
                i as int,
            ),
        decreases n - i,
    {
        proof {
            assert(doc.deep_view().fields[i as int] == doc.fields@[i as int].deep_view());
        }
        if doc.fields[i].field == fid {
            if doc.fields[i].values.len() > 0 {
                let v = doc.fields[i].values[0].clone();
                proof {
                    assert(doc.fields@[i as int].values.deep_view()[0] == doc.fields@[
                        i as int
                    ].values@[0]@);
                }
                return Some(v);
            }
            return None;
        }
        i = i + 1;
    }
    None
}

/// What retrieving by address string yields: the parsed address's document's
/// first stored `body` value, or the first error on the way there.
pub open spec fn spec_retrieve(idx: IndexModel, s: Seq<char>) -> Result<Seq<char>, Error> {
    match spec_parse_addr(s) {
        Err(e) => Err(e),
        Ok(addr) => match idx.schema.spec_get_field("body"@) {
            None => Err(Error::FieldNotFound),
            Some(bf) => match spec_fetch(idx, addr) {
                Err(e) => Err(e),
                Ok(_) => match spec_stored_value(idx, addr, bf) {
                    None => Err(Error::FieldNotFound),
                    Some(body) => Ok(body),
                },
            },
        },
    }
}

/// Retrieve the stored `body` text of the document named by an address
/// string.
pub fn retrieve_document(index: &Index, address: &str) -> (r: Result<String, Error>)
    requires
        index.deep_view().schema.fields.len() <= u32::MAX,
    ensures
        ({
            let sr = spec_retrieve(index.deep_view(), address@);
            match r {
                Ok(body) => sr == Ok::<Seq<char>, Error>(body@),
                Err(e) => sr == Err::<Seq<char>, Error>(e),
            }
        }),
{
    proof {
        assert(index.schema.fields@.len() == index.deep_view().schema.fields.len());
    }
    let addr = match string_to_doc_address(address) {
        Ok(a) => a,
        Err(e) => {
            return Err(e);
        },
    };
    let bf = match index.schema.get_field("body") {
        Some(bf) => bf,
        None => {
            return Err(Error::FieldNotFound);
        },
    };
    let doc = match fetch(index, addr) {
        Ok(d) => d,
        Err(e) => {
            return Err(e);
        },
    };
    match stored_value(doc, bf) {
        Some(body) => Ok(body),
        None => Err(Error::FieldNotFound),
    }
}

} // verus!
