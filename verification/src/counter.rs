//! Counting adjacent-pair candidates in a tokenized sequence.
//!
//! A width-two window slides over the sequence; each window's two tokens are
//! concatenated to form a candidate, and the candidate's count in the table
//! rises by one.  An optional policy suppresses windows whose second token
//! begins or ends with whitespace.

use vstd::prelude::*;

use crate::table::entry_count;
use crate::table::lemma_table_insert_count;
use crate::table::lemma_table_insert_wf;
use crate::table::table_insert;
use crate::table::table_wf;
use crate::table::CandidatePairTable;
use crate::text::token_concat;
use crate::text::tokens_view;
use vstd::string::StrSliceExecFns;

verus! {

/// Whether a character has the Unicode white-space property.
pub uninterp spec fn is_whitespace_char(c: char) -> bool;

/// Relies on `char::is_whitespace` of std: whether the character has the
/// Unicode `White_Space` property, a function of the character alone.
#[verifier::external_body]
fn char_is_whitespace(c: char) -> (r: bool)
    ensures
        r == is_whitespace_char(c),
{
    c.is_whitespace()
}

/// Whether a window whose second token is `b` may be counted.  When the
/// whitespace policy is on, a second token that begins or ends with
/// whitespace is suppressed.
pub open spec fn pair_admissible(b: Seq<char>, filter_ws: bool) -> bool {
    !filter_ws || b.len() == 0 || (!is_whitespace_char(b[b.len() - 1]) && !is_whitespace_char(
        b[0],
    ))
}

/// Whether the window starting at position `i` is counted for `key`.
pub open spec fn window_matches(s: Seq<Seq<char>>, filter_ws: bool, key: Seq<char>, i: int) -> bool {
    0 <= i && i + 1 < s.len() && pair_admissible(s[i + 1], filter_ws) && s[i] + s[i + 1] == key
}

/// How many of the first `n` windows are counted for `key`.
pub open spec fn pair_count_upto(s: Seq<Seq<char>>, filter_ws: bool, key: Seq<char>, n: int) -> nat
    decreases n,
{
    if n <= 0 {
        0
    } else {
        pair_count_upto(s, filter_ws, key, n - 1) + (if window_matches(s, filter_ws, key, n - 1) {
            1 as nat
        } else {
            0 as nat
        })
    }
}

/// How many adjacent windows of `s` are counted for `key`.
pub open spec fn pair_count(s: Seq<Seq<char>>, filter_ws: bool, key: Seq<char>) -> nat {
    pair_count_upto(s, filter_ws, key, s.len() - 1)
}

/// The table after recording the first `n` windows of `s`.
pub open spec fn table_upto(s: Seq<Seq<char>>, filter_ws: bool, n: int) -> Seq<(Seq<char>, nat)>
    decreases n,
{
    if n <= 0 {
        Seq::empty()
    } else {
        let prev = table_upto(s, filter_ws, n - 1);
        if n < s.len() && pair_admissible(s[n], filter_ws) {
            table_insert(prev, s[n - 1] + s[n])
        } else {
            prev
        }
    }
}

/// The candidate-pair table of a whole sequence.
pub open spec fn pair_table_spec(s: Seq<Seq<char>>, filter_ws: bool) -> Seq<(Seq<char>, nat)> {
    table_upto(s, filter_ws, s.len() - 1)
}

/// The folded table is well formed and its stored counts agree with the
/// window counts.
pub proof fn lemma_table_upto_ok(s: Seq<Seq<char>>, filter_ws: bool, n: int)
    ensures
        table_wf(table_upto(s, filter_ws, n)),
        forall|k: Seq<char>|
            entry_count(table_upto(s, filter_ws, n), k) == pair_count_upto(s, filter_ws, k, n),
    decreases n,
{
    if n <= 0 {
        assert forall|k: Seq<char>|
            entry_count(table_upto(s, filter_ws, n), k) == pair_count_upto(s, filter_ws, k, n) by {
            assert(entry_count(Seq::empty(), k) == 0);
        }
    } else {
        lemma_table_upto_ok(s, filter_ws, n - 1);
        let prev = table_upto(s, filter_ws, n - 1);
        if n < s.len() && pair_admissible(s[n], filter_ws) {
            lemma_table_insert_wf(prev, s[n - 1] + s[n]);
            assert forall|k: Seq<char>|
                entry_count(table_upto(s, filter_ws, n), k) == pair_count_upto(
                    s,
                    filter_ws,
                    k,
                    n,
                ) by {
                lemma_table_insert_count(prev, s[n - 1] + s[n], k);
                assert(entry_count(prev, k) == pair_count_upto(s, filter_ws, k, n - 1));
                assert(table_upto(s, filter_ws, n) == table_insert(prev, s[n - 1] + s[n]));
            }
        } else {
            assert forall|k: Seq<char>|
                entry_count(table_upto(s, filter_ws, n), k) == pair_count_upto(
                    s,
                    filter_ws,
                    k,
                    n,
                ) by {
                assert(entry_count(prev, k) == pair_count_upto(s, filter_ws, k, n - 1));
                assert(table_upto(s, filter_ws, n) == prev);
                assert(!window_matches(s, filter_ws, k, n - 1));
            }
        }
    }
}

/// At most `n` of the first `n` windows are counted for any key.
pub proof fn lemma_pair_count_bound(s: Seq<Seq<char>>, filter_ws: bool, key: Seq<char>, n: int)
    requires
        n >= 0,
    ensures
        pair_count_upto(s, filter_ws, key, n) <= n,
    decreases n,
{
    if n > 0 {
        lemma_pair_count_bound(s, filter_ws, key, n - 1);
    }
}

/// A positive count names a counted window.
pub proof fn lemma_pair_count_window(s: Seq<Seq<char>>, filter_ws: bool, key: Seq<char>, n: int)
    requires
        pair_count_upto(s, filter_ws, key, n) >= 1,
    ensures
        exists|i: int| window_matches(s, filter_ws, key, i),
    decreases n,
{
    if n <= 0 {
    } else if window_matches(s, filter_ws, key, n - 1) {
    } else {
        lemma_pair_count_window(s, filter_ws, key, n - 1);
    }
}

/// Scans a width-two window across `sequence` and counts each adjacent
/// concatenation, optionally suppressing windows whose second token begins or
/// ends with whitespace.  The input is not changed; the same table results
/// whatever order the windows would be visited in, since counting is a sum
/// over windows.
pub fn count_pairs(sequence: &Vec<String>, filter_ws: bool) -> (r: CandidatePairTable)
    ensures
        table_wf(r@),
        r@ == pair_table_spec(tokens_view(sequence@), filter_ws),
        forall|k: Seq<char>|
            entry_count(r@, k) == pair_count(tokens_view(sequence@), filter_ws, k),
{
    let ghost sv = tokens_view(sequence@);
    let mut table = CandidatePairTable::new();
    let n = sequence.len();
    if n < 2 {
        proof {
            lemma_table_upto_ok(sv, filter_ws, sv.len() - 1);
            assert(table@ =~= pair_table_spec(sv, filter_ws));
        }
        return table;
    }
    let mut i: usize = 0;
    proof {
        lemma_table_upto_ok(sv, filter_ws, 0);
    }
    while i < n - 1
        invariant
            n == sequence.len(),
            2 <= n,
            i <= n - 1,
            sv == tokens_view(sequence@),
            sv.len() == n,
            table@ == table_upto(sv, filter_ws, i as int),
        decreases n - 1 - i,
    {
        let second = &sequence[i + 1];
        let admissible = if filter_ws {
            let blen = second.as_str().unicode_len();
            if blen == 0 {
                true
            } else {
                let first_char = second.as_str().get_char(0);
                let last_char = second.as_str().get_char(blen - 1);
                !char_is_whitespace(last_char) && !char_is_whitespace(first_char)
            }
        } else {
            true
        };
        proof {
            assert(sv[i + 1] == sequence@[i + 1]@);
            assert(admissible == pair_admissible(sv[i + 1], filter_ws));
        }
        if admissible {
            let key = token_concat(&sequence[i], &sequence[i + 1]);
            proof {
                lemma_table_upto_ok(sv, filter_ws, i as int);
                lemma_pair_count_bound(sv, filter_ws, key@, i as int);
                assert(entry_count(table@, key@) < usize::MAX);
            }
            table.record_pair(key);
        }
        proof {
            assert(sv[i as int] == sequence@[i as int]@);
        }
        i = i + 1;
    }
    proof {
        lemma_table_upto_ok(sv, filter_ws, sv.len() - 1);
    }
    table
}

} // verus!
