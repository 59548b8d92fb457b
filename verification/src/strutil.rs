//! String helpers: two trusted shims over std operations that vstd does not
//! specify, and verified character-level comparison and joining utilities.

use vstd::prelude::*;

verus! {

/// Relies on String::push: appends the given char to the end of the string.
#[verifier::external_body]
pub fn push_char(s: &mut String, c: char)
    ensures
        final(s)@ == old(s)@.push(c),
{
    s.push(c);
}

/// Relies on char::from_u32: returns Some exactly for valid Unicode scalar
/// values (all u32 below 0xD800, and 0xE000 through 0x10FFFF), and the
/// returned char has the given value as its code point.
#[verifier::external_body]
pub fn char_from_u32(v: u32) -> (r: Option<char>)
    ensures
        r is Some <==> (v < 0xD800 || (0xE000 <= v && v <= 0x10FFFF)),
        r is Some ==> r->0 as u32 == v,
{
    char::from_u32(v)
}

/// Character-for-character equality of two string slices.
pub fn str_eq(a: &str, b: &str) -> (r: bool)
    ensures
        r == (a@ == b@),
{
    let n = a.unicode_len();
    let m = b.unicode_len();
    if n != m {
        proof {
            assert(a@ != b@);
        }
        return false;
    }
    let mut i: usize = 0;
    while i < n
        invariant
            0 <= i <= n == a@.len() == b@.len(),
            forall|j: int| 0 <= j < i ==> a@[j] == b@[j],
        decreases n - i,
    {
        if a.get_char(i) != b.get_char(i) {
            return false;
        }
        i = i + 1;
    }
    proof {
        assert(a@ =~= b@);
    }
    true
}

/// The lines of a page joined with a single newline between consecutive
/// lines (spec side).
pub open spec fn spec_join_lines(lines: Seq<Seq<char>>) -> Seq<char>
    decreases lines.len(),
{
    if lines.len() == 0 {
        Seq::<char>::empty()
    } else if lines.len() == 1 {
        lines[0]
    } else {
        spec_join_lines(lines.drop_last()) + seq!['\n'] + lines.last()
    }
}

/// Join text lines with a newline between consecutive lines.
pub fn join_lines(lines: &Vec<String>) -> (r: String)
    ensures
        r@ == spec_join_lines(lines.deep_view()),
{
    let mut r = String::new();
    let n = lines.len();
    if n == 0 {
        proof {
            assert(lines.deep_view() =~= Seq::<Seq<char>>::empty());
        }
        return r;
    }
    let mut i: usize = 0;
    while i < n
        invariant
            0 <= i <= n == lines.len(),
            n >= 1,
            i > 0 ==> r@ == spec_join_lines(lines.deep_view().subrange(0, i as int)),
            i == 0 ==> r@ == Seq::<char>::empty(),
        decreases n - i,
    {
        if i > 0 {
            push_char(&mut r, '\n');
        }
        r.append(lines[i].as_str());
        proof {
            let pre = lines.deep_view().subrange(0, i as int);
            let cur = lines.deep_view().subrange(0, i + 1);
            assert(cur.drop_last() =~= pre);
            assert(cur.last() == lines.deep_view()[i as int]);
            if i == 0 {
                assert(r@ =~= cur[0]);
            }
        }
        i = i + 1;
    }
    proof {
        assert(lines.deep_view().subrange(0, n as int) =~= lines.deep_view());
    }
    r
}

} // verus!
