//! Document addresses.
//!
//! A `DocAddress` is the sole external reference to a document: a segment
//! ordinal paired with a document id local to that segment. It round-trips
//! losslessly through its external string encoding
//! `"<segment_ord>:<local_doc_id>"`.

use vstd::prelude::*;

use crate::error::{Error, ParseReason};
use crate::strutil::push_char;

verus! {

/// A stable positional reference to one document: which segment it lives in
/// and its id local to that segment.
#[derive(Debug, Clone, Copy, PartialEq, Eq, Structural)]
pub struct DocAddress {
    pub segment_ord: u32,
    pub doc_id: u32,
}

/// A decimal digit character.
pub open spec fn is_digit(c: char) -> bool {
    48 <= c as u32 && c as u32 <= 57
}

/// The value of a decimal digit character.
pub open spec fn digit_val(c: char) -> int {
    c as u32 - 48
}

/// The character for one decimal digit.
pub open spec fn digit_char(d: int) -> char {
    if d == 0 {
        '0'
    } else if d == 1 {
        '1'
    } else if d == 2 {
        '2'
    } else if d == 3 {
        '3'
    } else if d == 4 {
        '4'
    } else if d == 5 {
        '5'
    } else if d == 6 {
        '6'
    } else if d == 7 {
        '7'
    } else if d == 8 {
        '8'
    } else {
        '9'
    }
}

/// The decimal digit characters of a non-negative integer, most significant
/// first, with no leading zeros (except for the number zero itself).
pub open spec fn dec_chars(n: int) -> Seq<char>
    decreases n,
{
    if n < 10 {
        seq![digit_char(n)]
    } else {
        dec_chars(n / 10).push(digit_char(n % 10))
    }
}

/// The integer a digit sequence denotes (most significant digit first).
pub open spec fn dec_val(s: Seq<char>) -> int
    decreases s.len(),
{
    if s.len() == 0 {
        0
    } else {
        dec_val(s.drop_last()) * 10 + digit_val(s.last())
    }
}

/// Every character of the sequence is a decimal digit.
pub open spec fn all_digits(s: Seq<char>) -> bool {
    forall|i: int| 0 <= i < s.len() ==> is_digit(s[i])
}

/// A digit sequence parses as a `u32` when it is non-empty, all digits, and
/// its value fits.
pub open spec fn spec_parse_u32(s: Seq<char>) -> Option<u32> {
    if s.len() > 0 && all_digits(s) && dec_val(s) <= u32::MAX {
        Some(dec_val(s) as u32)
    } else {
        None
    }
}

/// The index of the first `':'` at or after `i`, or the length when none.
pub open spec fn colon_pos(s: Seq<char>, i: int) -> int
    decreases s.len() - i,
{
    if i < 0 || i >= s.len() {
        s.len() as int
    } else if s[i] == ':' {
        i
    } else {
        colon_pos(s, i + 1)
    }
}

/// The string encoding of an address: decimal segment ordinal, a colon,
/// decimal local document id.
pub open spec fn spec_format_addr(a: DocAddress) -> Seq<char> {
    dec_chars(a.segment_ord as int) + seq![':'] + dec_chars(a.doc_id as int)
}

/// What parsing an address string yields: the two decimal components around
/// the first colon, or a parse error naming the offending position.
pub open spec fn spec_parse_addr(s: Seq<char>) -> Result<DocAddress, Error> {
    let p = colon_pos(s, 0);
    if p == s.len() {
        Err(Error::ParseError(ParseReason::MissingSeparator, s.len() as usize))
    } else {
        match spec_parse_u32(s.subrange(0, p)) {
            None => Err(Error::ParseError(ParseReason::InvalidNumber, 0)),
            Some(x) => match spec_parse_u32(s.subrange(p + 1, s.len() as int)) {
                None => Err(Error::ParseError(ParseReason::InvalidNumber, (p + 1) as usize)),
                Some(y) => Ok(DocAddress { segment_ord: x, doc_id: y }),
            },
        }
    }
}

/// The character for one decimal digit.
fn digit_to_char(d: u32) -> (c: char)
    requires
        d < 10,
    ensures
        c == digit_char(d as int),
{
    if d == 0 {
        '0'
    } else if d == 1 {
        '1'
    } else if d == 2 {
        '2'
    } else if d == 3 {
        '3'
    } else if d == 4 {
        '4'
    } else if d == 5 {
        '5'
    } else if d == 6 {
        '6'
    } else if d == 7 {
        '7'
    } else if d == 8 {
        '8'
    } else {
        '9'
    }
}

/// The decimal string of a `u32`.
fn dec_string(n: u32) -> (r: String)
    ensures
        r@ == dec_chars(n as int),
    decreases n,
{
    if n < 10 {
        let mut s = String::new();
        push_char(&mut s, digit_to_char(n));
        proof {
            assert(s@ =~= seq![digit_char(n as int)]);
        }
        s
    } else {
        let mut s = dec_string(n / 10);
        push_char(&mut s, digit_to_char(n % 10));
        s
    }
}

/// Convert a `DocAddress` to its string encoding.
pub fn doc_address_to_string(addr: DocAddress) -> (r: String)
    ensures
        r@ == spec_format_addr(addr),
{
    let mut s = dec_string(addr.segment_ord);
    push_char(&mut s, ':');
    let t = dec_string(addr.doc_id);
    s.append(t.as_str());
    proof {
        assert(s@ =~= spec_format_addr(addr));
    }
    s
}

/// The value of an all-digit sequence is non-negative, and extending an
/// all-digit sequence never decreases its value.
proof fn lemma_dec_val_prefix(s: Seq<char>, k: int)
    requires
        0 <= k <= s.len(),
        all_digits(s),
    ensures
        dec_val(s.subrange(0, k)) >= 0,
        dec_val(s) >= dec_val(s.subrange(0, k)),
    decreases s.len() - k,
{
    if k == s.len() {
        assert(s.subrange(0, k) =~= s);
        lemma_dec_val_nonneg(s);
    } else {
        lemma_dec_val_prefix(s, k + 1);
        assert(s.subrange(0, k + 1).drop_last() =~= s.subrange(0, k));
        assert(s.subrange(0, k + 1).last() == s[k]);
        lemma_dec_val_nonneg(s.subrange(0, k));
    }
}

/// An all-digit sequence denotes a non-negative value.
proof fn lemma_dec_val_nonneg(s: Seq<char>)
    requires
        all_digits(s),
    ensures
        dec_val(s) >= 0,
    decreases s.len(),
{
    if s.len() > 0 {
        assert(all_digits(s.drop_last()));
        lemma_dec_val_nonneg(s.drop_last());
    }
}

/// Parse the digit run `s[from..to]` as a `u32`.
fn parse_u32_part(s: &str, from: usize, to: usize) -> (r: Option<u32>)
    requires
        from <= to <= s@.len(),
    ensures
        r == spec_parse_u32(s@.subrange(from as int, to as int)),
{
    let ghost full = s@.subrange(from as int, to as int);
    let mut acc: u64 = 0;
    let mut i: usize = from;
    while i < to
        invariant
            from <= i <= to <= s@.len(),
            full == s@.subrange(from as int, to as int),
            all_digits(s@.subrange(from as int, i as int)),
            acc == dec_val(s@.subrange(from as int, i as int)),
            acc <= u32::MAX,
        decreases to - i,
    {
        let c = s.get_char(i);
        let u = c as u32;
        if u < 48 || u > 57 {
            proof {
                assert(full[i - from] == c);
                assert(!all_digits(full));
            }
            return None;
        }
        let d = (u - 48) as u64;
        proof {
            assert(s@.subrange(from as int, i + 1).drop_last() =~= s@.subrange(
                from as int,
                i as int,
            ));
            assert(s@.subrange(from as int, i + 1).last() == s@[i as int]);
        }
        acc = acc * 10 + d;
        i = i + 1;
        if acc > u32::MAX as u64 {
            proof {
                let pre = s@.subrange(from as int, i as int);
                if all_digits(full) {
                    assert(pre =~= full.subrange(0, i - from));
                    lemma_dec_val_prefix(full, i - from);
                }
            }
            return None;
        }
    }
    proof {
        assert(s@.subrange(from as int, to as int) =~= full);
    }
    if to == from {
        None
    } else {
        Some(acc as u32)
    }
}

/// Convert an address string back to a `DocAddress`. Rejects a string with
/// no `':'` separator, and any component that is empty, holds a non-digit,
/// or exceeds `u32::MAX`.
/// The index of the first `':'` in the string, or its length when none.
fn find_colon(s: &str) -> (r: usize)
    ensures
        r == colon_pos(s@, 0),
        r <= s@.len(),
{
    let n = s.unicode_len();
    let mut i: usize = 0;
    while i < n
        invariant
            0 <= i <= n == s@.len(),
            colon_pos(s@, 0) == colon_pos(s@, i as int),
        decreases n - i,
    {
        let c = s.get_char(i);
        if c == ':' {
            return i;
        }
        i = i + 1;
    }
    n
}

pub fn string_to_doc_address(s: &str) -> (r: Result<DocAddress, Error>)
    ensures
        r == spec_parse_addr(s@),
{
    let n = s.unicode_len();
    let p = find_colon(s);
    if p == n {
        Err(Error::ParseError(ParseReason::MissingSeparator, n))
    } else {
        {
            match parse_u32_part(s, 0, p) {
                None => Err(Error::ParseError(ParseReason::InvalidNumber, 0)),
                Some(x) => match parse_u32_part(s, p + 1, n) {
                    None => Err(Error::ParseError(ParseReason::InvalidNumber, p + 1)),
                    Some(y) => Ok(DocAddress { segment_ord: x, doc_id: y }),
                },
            }
        }
    }
}

/// The decimal encoding of a non-negative integer is a non-empty all-digit
/// sequence denoting exactly that integer.
proof fn lemma_dec_chars_val(n: int)
    requires
        n >= 0,
    ensures
        dec_chars(n).len() >= 1,
        all_digits(dec_chars(n)),
        dec_val(dec_chars(n)) == n,
    decreases n,
{
    if n < 10 {
        let s = seq![digit_char(n)];
        assert(s.drop_last() =~= Seq::<char>::empty());
        assert(dec_val(Seq::<char>::empty()) == 0);
        assert(dec_val(s) == digit_val(digit_char(n)));
    } else {
        lemma_dec_chars_val(n / 10);
        let s = dec_chars(n / 10).push(digit_char(n % 10));
        assert(s.drop_last() =~= dec_chars(n / 10));
        assert(digit_val(digit_char(n % 10)) == n % 10);
        vstd::arithmetic::div_mod::lemma_fundamental_div_mod(n, 10);
    }
}

/// The first colon at or after `i` is at `p`, when `s[p]` is a colon and no
/// earlier position at or after `i` holds one.
proof fn lemma_colon_pos_from(s: Seq<char>, i: int, p: int)
    requires
        0 <= i <= p < s.len(),
        s[p] == ':',
        forall|j: int| i <= j < p ==> s[j] != ':',
    ensures
        colon_pos(s, i) == p,
    decreases p - i,
{
    if i < p {
        lemma_colon_pos_from(s, i + 1, p);
    }
}

/// Round trip: every valid `DocAddress` survives formatting and parsing
/// unchanged.
pub proof fn lemma_doc_address_round_trip(a: DocAddress)
    ensures
        spec_parse_addr(spec_format_addr(a)) == Ok::<DocAddress, Error>(a),
{
    let left = dec_chars(a.segment_ord as int);
    let right = dec_chars(a.doc_id as int);
    let s = spec_format_addr(a);
    lemma_dec_chars_val(a.segment_ord as int);
    lemma_dec_chars_val(a.doc_id as int);
    let p = left.len() as int;
    assert(s[p] == ':');
    assert forall|j: int| 0 <= j < p implies s[j] != ':' by {
        assert(s[j] == left[j]);
        assert(is_digit(left[j]));
    }
    lemma_colon_pos_from(s, 0, p);
    assert(s.subrange(0, p) =~= left);
    assert(s.subrange(p + 1, s.len() as int) =~= right);
    assert(spec_parse_u32(left) == Some(a.segment_ord));
    assert(spec_parse_u32(right) == Some(a.doc_id));
}

} // verus!
