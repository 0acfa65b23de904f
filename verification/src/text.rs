//! Character-level views of tokens and the lexicographic order on them.
//!
//! Tokens are `String`s viewed as sequences of code points.  All contracts in
//! the crate are stated over these views; byte offsets never appear.

use vstd::prelude::*;
use vstd::string::StrSliceExecFns;
use vstd::string::StringExecFns;

verus! {

/// The view of a token sequence: each token as its sequence of characters.
pub open spec fn tokens_view(ts: Seq<String>) -> Seq<Seq<char>> {
    ts.map_values(|t: String| t@)
}

/// Every token of the sequence holds at least one character.
pub open spec fn tokens_nonempty(s: Seq<Seq<char>>) -> bool {
    forall|i: int| 0 <= i < s.len() ==> (#[trigger] s[i]).len() >= 1
}

/// Strict lexicographic order on character sequences, comparing code points.
///
/// This matches the order in which a key-ordered map over `String` keys is
/// iterated, because UTF-8 byte order coincides with code-point order.
pub open spec fn lex_lt(a: Seq<char>, b: Seq<char>) -> bool
    decreases a.len(),
{
    if b.len() == 0 {
        false
    } else if a.len() == 0 {
        true
    } else if a[0] != b[0] {
        (a[0] as u32) < (b[0] as u32)
    } else {
        lex_lt(a.skip(1), b.skip(1))
    }
}

pub open spec fn lex_le(a: Seq<char>, b: Seq<char>) -> bool {
    lex_lt(a, b) || a == b
}

/// Of two character sequences, exactly one of `lex_lt(a, b)`, `a == b`,
/// `lex_lt(b, a)` holds.
pub proof fn lemma_lex_trichotomy(a: Seq<char>, b: Seq<char>)
    ensures
        lex_lt(a, b) || lex_lt(b, a) || a == b,
        lex_lt(a, b) ==> !lex_lt(b, a) && a != b,
        lex_lt(b, a) ==> !lex_lt(a, b) && b != a,
    decreases a.len(),
{
    if a.len() == 0 && b.len() == 0 {
        assert(a =~= b);
    } else if a.len() == 0 || b.len() == 0 {
    } else if a[0] != b[0] {
        vstd::utf8::char_u32_cast(a[0], a[0] as u32);
        vstd::utf8::char_u32_cast(b[0], b[0] as u32);
        assert(a[0] as u32 != b[0] as u32);
    } else {
        lemma_lex_trichotomy(a.skip(1), b.skip(1));
        if a.skip(1) == b.skip(1) {
            assert forall|i: int| 0 <= i < a.len() implies a[i] == b[i] by {
                if i >= 1 {
                    assert(a.skip(1)[i - 1] == a[i]);
                    assert(b.skip(1)[i - 1] == b[i]);
                }
            }
            assert(a =~= b);
        }
        if a == b {
            assert(a.skip(1) =~= b.skip(1));
        }
    }
}

pub proof fn lemma_lex_lt_transitive(a: Seq<char>, b: Seq<char>, c: Seq<char>)
    requires
        lex_lt(a, b),
        lex_lt(b, c),
    ensures
        lex_lt(a, c),
    decreases a.len(),
{
    if a.len() == 0 {
    } else {
        // lex_lt(a, b) with a nonempty forces b nonempty; same for c.
        if a[0] == b[0] && b[0] == c[0] {
            lemma_lex_lt_transitive(a.skip(1), b.skip(1), c.skip(1));
        }
    }
}

/// Concatenation of two tokens, specified over the character views.
pub fn token_concat(a: &String, b: &String) -> (r: String)
    ensures
        r@ == a@ + b@,
{
    let mut r = a.clone();
    r.append(b.as_str());
    r
}

/// Lexicographic comparison of two tokens, by code point.
pub fn str_lex_lt(a: &String, b: &String) -> (r: bool)
    ensures
        r == lex_lt(a@, b@),
{
    let alen = a.as_str().unicode_len();
    let blen = b.as_str().unicode_len();
    let mut i: usize = 0;
    proof {
        assert(a@.skip(0) =~= a@);
        assert(b@.skip(0) =~= b@);
    }
    while i < alen && i < blen
        invariant
            i <= alen,
            i <= blen,
            alen == a@.len(),
            blen == b@.len(),
            lex_lt(a@, b@) == lex_lt(a@.skip(i as int), b@.skip(i as int)),
        decreases alen - i,
    {
        let ca = a.as_str().get_char(i);
        let cb = b.as_str().get_char(i);
        if ca != cb {
            return (ca as u32) < (cb as u32);
        }
        proof {
            assert(a@.skip(i as int).skip(1) =~= a@.skip(i + 1));
            assert(b@.skip(i as int).skip(1) =~= b@.skip(i + 1));
        }
        i = i + 1;
    }
    alen < blen
}

/// Whether `sep` occurs in `s` starting at character position `i`.
pub open spec fn is_match_at(s: Seq<char>, sep: Seq<char>, i: int) -> bool {
    0 <= i && i + sep.len() <= s.len() && s.subrange(i, i + sep.len() as int) == sep
}

/// Checks for an occurrence of `sep` at character position `i` of `s`.
pub fn match_at(s: &str, sep: &String, i: usize, sep_len: usize) -> (r: bool)
    requires
        sep_len == sep@.len(),
        i + sep_len <= s@.len(),
        s@.len() <= usize::MAX,
    ensures
        r == is_match_at(s@, sep@, i as int),
{
    let mut j: usize = 0;
    while j < sep_len
        invariant
            j <= sep_len,
            sep_len == sep@.len(),
            i + sep_len <= s@.len(),
            s@.len() <= usize::MAX,
            forall|k: int| 0 <= k < j ==> s@[i + k] == sep@[k],
        decreases sep_len - j,
    {
        if s.get_char(i + j) != sep.as_str().get_char(j) {
            proof {
                assert(s@.subrange(i as int, i + sep@.len() as int)[j as int] == s@[i + j]);
            }
            return false;
        }
        j = j + 1;
    }
    proof {
        assert(s@.subrange(i as int, i + sep@.len() as int) =~= sep@);
    }
    true
}

/// Copies the character range `[from, to)` of `s` into a fresh token.
pub fn substring_copy(s: &str, from: usize, to: usize) -> (r: String)
    requires
        from <= to <= s@.len(),
    ensures
        r@ == s@.subrange(from as int, to as int),
{
    String::from_str(s.substring_char(from, to))
}

} // verus!
