//! The tokenizer.
//!
//! Splits raw text into a sequence of normalized terms: ASCII letters are
//! lowercased, runs of ASCII alphanumeric characters form tokens, and every
//! other character is a boundary. Non-ASCII letters are deliberately treated
//! as boundaries: the ASCII classes have a fixed, locale-independent
//! definition that the specification states exactly, which keeps
//! tokenization deterministic on every machine. A token's position is its
//! index in the returned sequence, monotonically increasing from zero.
//! Deterministic and pure; no failure modes.

use vstd::prelude::*;

verus! {

/// A character that may stand inside a token: an ASCII letter or digit.
pub open spec fn is_token_char(c: char) -> bool {
    (97 <= c as u32 && c as u32 <= 122) || (65 <= c as u32 && c as u32 <= 90) || (48 <= c as u32
        && c as u32 <= 57)
}

/// Case normalization: an ASCII uppercase letter becomes its lowercase
/// counterpart; every other character is unchanged.
pub open spec fn norm_char(c: char) -> char {
    if 65 <= c as u32 && c as u32 <= 90 {
        ((c as u8) + 32) as char
    } else {
        c
    }
}

/// One tokenization step at a time: scan from position `i` with the token
/// built so far in `cur` and the finished tokens in `acc`.
pub open spec fn tokenize_rec(s: Seq<char>, i: int, cur: Seq<char>, acc: Seq<Seq<char>>) -> Seq<
    Seq<char>,
>
    decreases s.len() - i,
{
    if i < 0 || i >= s.len() {
        if cur.len() == 0 {
            acc
        } else {
            acc.push(cur)
        }
    } else if is_token_char(s[i]) {
        tokenize_rec(s, i + 1, cur.push(norm_char(s[i])), acc)
    } else if cur.len() == 0 {
        tokenize_rec(s, i + 1, cur, acc)
    } else {
        tokenize_rec(s, i + 1, Seq::<char>::empty(), acc.push(cur))
    }
}

/// The tokens of a text, in order of appearance.
pub open spec fn spec_tokenize(s: Seq<char>) -> Seq<Seq<char>> {
    tokenize_rec(s, 0, Seq::<char>::empty(), Seq::<Seq<char>>::empty())
}

/// The views of a sequence of owned tokens.
pub open spec fn token_views(ts: Seq<Vec<char>>) -> Seq<Seq<char>> {
    Seq::new(ts.len(), |i: int| ts[i]@)
}

/// Split a text into its normalized tokens. The position of a token is its
/// index in the returned vector.
pub fn tokenize(s: &str) -> (r: Vec<Vec<char>>)
    ensures
        token_views(r@) == spec_tokenize(s@),
{
    let n = s.unicode_len();
    let mut acc: Vec<Vec<char>> = Vec::new();
    let mut cur: Vec<char> = Vec::new();
    let mut i: usize = 0;
    proof {
        assert(token_views(acc@) =~= Seq::<Seq<char>>::empty());
    }
    while i < n
        invariant
            0 <= i <= n == s@.len(),
            spec_tokenize(s@) == tokenize_rec(s@, i as int, cur@, token_views(acc@)),
        decreases n - i,
    {
        let c = s.get_char(i);
        let u = c as u32;
        if (97 <= u && u <= 122) || (65 <= u && u <= 90) || (48 <= u && u <= 57) {
            let nc = if 65 <= u && u <= 90 {
                ((c as u8) + 32) as char
            } else {
                c
            };
            cur.push(nc);
        } else {
            if cur.len() > 0 {
                let done = cur;
                cur = Vec::new();
                let ghost old_acc = acc@;
                acc.push(done);
                proof {
                    assert(token_views(acc@) =~= token_views(old_acc).push(done@));
                }
            }
        }
        i = i + 1;
    }
    if cur.len() > 0 {
        let ghost old_acc = acc@;
        let done = cur;
        acc.push(done);
        proof {
            assert(token_views(acc@) =~= token_views(old_acc).push(done@));
        }
    }
    acc
}

} // verus!
