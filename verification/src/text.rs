//! Lexicographic order on display titles, by code point.

use vstd::prelude::*;
use vstd::string::StrSliceExecFns;

verus! {

/// Lexicographic comparison of two character sequences from position `i` on:
/// a proper prefix sorts first, otherwise the first differing code point
/// decides.
pub open spec fn chars_le_from(a: Seq<char>, b: Seq<char>, i: int) -> bool
    decreases a.len() - i,
{
    if i >= a.len() {
        true
    } else if i >= b.len() {
        false
    } else if a[i] as u32 == b[i] as u32 {
        chars_le_from(a, b, i + 1)
    } else {
        (a[i] as u32) < (b[i] as u32)
    }
}

/// The lexicographic order on character sequences.
pub open spec fn chars_le(a: Seq<char>, b: Seq<char>) -> bool {
    chars_le_from(a, b, 0)
}

proof fn lemma_chars_le_from_total(a: Seq<char>, b: Seq<char>, i: int)
    ensures
        chars_le_from(a, b, i) || chars_le_from(b, a, i),
    decreases a.len() - i,
{
    if i >= a.len() || i >= b.len() {
    } else if a[i] as u32 == b[i] as u32 {
        lemma_chars_le_from_total(a, b, i + 1);
    }
}

/// The title order is total.
pub proof fn lemma_chars_le_total(a: Seq<char>, b: Seq<char>)
    ensures
        chars_le(a, b) || chars_le(b, a),
{
    lemma_chars_le_from_total(a, b, 0);
}

proof fn lemma_chars_le_from_trans(a: Seq<char>, b: Seq<char>, c: Seq<char>, i: int)
    requires
        chars_le_from(a, b, i),
        chars_le_from(b, c, i),
    ensures
        chars_le_from(a, c, i),
    decreases a.len() - i,
{
    if i >= a.len() {
    } else {
        assert(i < b.len());
        if a[i] as u32 == b[i] as u32 {
            assert(i < c.len());
            if b[i] as u32 == c[i] as u32 {
                lemma_chars_le_from_trans(a, b, c, i + 1);
            }
        } else {
            assert(i < c.len());
        }
    }
}

/// The title order is transitive.
pub proof fn lemma_chars_le_trans(a: Seq<char>, b: Seq<char>, c: Seq<char>)
    requires
        chars_le(a, b),
        chars_le(b, c),
    ensures
        chars_le(a, c),
{
    lemma_chars_le_from_trans(a, b, c, 0);
}

/// Decides the lexicographic order on two titles.
pub fn title_le(a: &str, b: &str) -> (r: bool)
    ensures
        r == chars_le(a@, b@),
{
    let la = a.unicode_len();
    let lb = b.unicode_len();
    let mut i: usize = 0;
    while i < la && i < lb
        invariant
            la == a@.len(),
            lb == b@.len(),
            i <= la,
            i <= lb,
            chars_le(a@, b@) == chars_le_from(a@, b@, i as int),
        decreases la - i,
    {
        let ua = a.get_char(i) as u32;
        let ub = b.get_char(i) as u32;
        if ua == ub {
            i = i + 1;
        } else {
            return ua < ub;
        }
    }
    i >= la
}

} // verus!
