//! Rewriting a tokenized sequence by fusing a chosen adjacent pair.
//!
//! The scan runs left to right and merges are non-overlapping: a token
//! emitted as the second half of a merge is never reused by the next window.
//! `merge_spec` is the exact result; concatenating it reproduces the input.

use vstd::prelude::*;

use crate::split::lemma_flatten_cons;
use crate::split::lemma_tokens_view_push;
use crate::text::token_concat;
use crate::text::tokens_view;

verus! {

/// The candidate formed by the window of `s` starting at position `i`.
pub open spec fn adjacent_pair(s: Seq<Seq<char>>, i: int) -> Seq<char> {
    s[i] + s[i + 1]
}

/// Whether some adjacent window of `s` concatenates to `t`.
pub open spec fn has_adjacent_pair(s: Seq<Seq<char>>, t: Seq<char>) -> bool {
    exists|i: int| 0 <= i < s.len() - 1 && #[trigger] adjacent_pair(s, i) == t
}

/// The sequence after fusing every leftmost, non-overlapping adjacent pair
/// whose concatenation equals `t`.
pub open spec fn merge_spec(s: Seq<Seq<char>>, t: Seq<char>) -> Seq<Seq<char>>
    decreases s.len(),
{
    if s.len() == 0 {
        Seq::empty()
    } else if s.len() == 1 {
        seq![s[0]]
    } else if s[0] + s[1] == t {
        seq![t] + merge_spec(s.skip(2), t)
    } else {
        seq![s[0]] + merge_spec(s.skip(1), t)
    }
}

/// Rewriting preserves content: the concatenation of the output equals the
/// concatenation of the input.
pub proof fn lemma_merge_concat(s: Seq<Seq<char>>, t: Seq<char>)
    ensures
        merge_spec(s, t).flatten() == s.flatten(),
    decreases s.len(),
{
    if s.len() == 0 {
    } else if s.len() == 1 {
        assert(seq![s[0]] =~= s);
    } else if s[0] + s[1] == t {
        lemma_merge_concat(s.skip(2), t);
        lemma_flatten_cons(t, merge_spec(s.skip(2), t));
        // Unfold the input's flattening across its first two tokens.
        assert(s.drop_first() =~= s.skip(1));
        assert(s.flatten() == s[0] + s.skip(1).flatten());
        assert(s.skip(1).drop_first() =~= s.skip(2));
        assert(s.skip(1)[0] == s[1]);
        assert(s.skip(1).flatten() == s[1] + s.skip(2).flatten());
        assert(t + s.skip(2).flatten() =~= s[0] + (s[1] + s.skip(2).flatten()));
    } else {
        lemma_merge_concat(s.skip(1), t);
        lemma_flatten_cons(s[0], merge_spec(s.skip(1), t));
        assert(s.drop_first() =~= s.skip(1));
        assert(s.flatten() == s[0] + s.skip(1).flatten());
    }
}

/// Rewriting on a target that matches no adjacent pair returns the sequence
/// unchanged.
pub proof fn lemma_merge_no_match(s: Seq<Seq<char>>, t: Seq<char>)
    requires
        !has_adjacent_pair(s, t),
    ensures
        merge_spec(s, t) == s,
    decreases s.len(),
{
    if s.len() == 0 {
        assert(merge_spec(s, t) =~= s);
    } else if s.len() == 1 {
        assert(seq![s[0]] =~= s);
    } else {
        assert(s[0] + s[1] != t) by {
            assert(adjacent_pair(s, 0) == s[0] + s[1]);
        }
        assert forall|i: int| 0 <= i < s.skip(1).len() - 1 implies #[trigger] adjacent_pair(
            s.skip(1),
            i,
        ) != t by {
            assert(adjacent_pair(s.skip(1), i) == adjacent_pair(s, i + 1));
        }
        lemma_merge_no_match(s.skip(1), t);
        assert(seq![s[0]] + s.skip(1) =~= s);
    }
}

/// The output is never longer than the input, never empty for a non-empty
/// input, and strictly shorter as soon as some adjacent pair matches.
pub proof fn lemma_merge_len(s: Seq<Seq<char>>, t: Seq<char>)
    ensures
        merge_spec(s, t).len() <= s.len(),
        s.len() >= 1 ==> merge_spec(s, t).len() >= 1,
        has_adjacent_pair(s, t) ==> merge_spec(s, t).len() < s.len(),
    decreases s.len(),
{
    if s.len() <= 1 {
    } else if s[0] + s[1] == t {
        lemma_merge_len(s.skip(2), t);
    } else {
        lemma_merge_len(s.skip(1), t);
        if has_adjacent_pair(s, t) {
            let i = choose|i: int| 0 <= i < s.len() - 1 && #[trigger] adjacent_pair(s, i) == t;
            assert(i >= 1) by {
                assert(adjacent_pair(s, 0) == s[0] + s[1]);
            }
            assert(adjacent_pair(s.skip(1), i - 1) == adjacent_pair(s, i));
            assert(has_adjacent_pair(s.skip(1), t));
        }
    }
}

/// Every output token is an input token or the fused target; in particular
/// all output tokens are non-empty when all input tokens are.
pub proof fn lemma_merge_nonempty(s: Seq<Seq<char>>, t: Seq<char>)
    requires
        forall|i: int| 0 <= i < s.len() ==> (#[trigger] s[i]).len() >= 1,
    ensures
        forall|i: int|
            0 <= i < merge_spec(s, t).len() ==> (#[trigger] merge_spec(s, t)[i]).len() >= 1,
    decreases s.len(),
{
    if s.len() <= 1 {
    } else if s[0] + s[1] == t {
        lemma_merge_nonempty(s.skip(2), t);
        let m = merge_spec(s, t);
        let rest = merge_spec(s.skip(2), t);
        assert forall|i: int| 0 <= i < m.len() implies (#[trigger] m[i]).len() >= 1 by {
            if i >= 1 {
                assert(m[i] == rest[i - 1]);
            } else {
                assert(m[0] == t && t.len() == (s[0] + s[1]).len());
            }
        }
    } else {
        lemma_merge_nonempty(s.skip(1), t);
        let m = merge_spec(s, t);
        let rest = merge_spec(s.skip(1), t);
        assert forall|i: int| 0 <= i < m.len() implies (#[trigger] m[i]).len() >= 1 by {
            if i >= 1 {
                assert(m[i] == rest[i - 1]);
            }
        }
    }
}

/// Fuses every leftmost, non-overlapping adjacent pair of `tokenized_corpus`
/// whose concatenation equals `token` into one token.
pub fn merge_tokenized_corpus(tokenized_corpus: &Vec<String>, token: String) -> (r: Vec<String>)
    requires
        tokenized_corpus.len() >= 1,
    ensures
        tokens_view(r@) == merge_spec(tokens_view(tokenized_corpus@), token@),
{
    let ghost sv = tokens_view(tokenized_corpus@);
    let n = tokenized_corpus.len();
    let mut out: Vec<String> = Vec::new();
    let mut i: usize = 0;
    proof {
        assert(sv.skip(0) =~= sv);
        assert(tokens_view(out@) + merge_spec(sv, token@) =~= merge_spec(sv, token@));
    }
    while i < n
        invariant
            n == tokenized_corpus.len(),
            sv == tokens_view(tokenized_corpus@),
            sv.len() == n,
            i <= n,
            merge_spec(sv, token@) == tokens_view(out@) + merge_spec(sv.skip(i as int), token@),
        decreases n - i,
    {
        let ghost out_before = out@;
        let ghost tail = sv.skip(i as int);
        proof {
            assert(tail[0] == sv[i as int] && sv[i as int] == tokenized_corpus@[i as int]@);
        }
        if i + 1 < n {
            proof {
                assert(tail[1] == sv[i + 1] && sv[i + 1] == tokenized_corpus@[i + 1]@);
            }
            let cat = token_concat(&tokenized_corpus[i], &tokenized_corpus[i + 1]);
            if cat == token {
                out.push(token.clone());
                proof {
                    lemma_tokens_view_push(out_before, token);
                    assert(tail.skip(2) =~= sv.skip(i + 2));
                    assert(tokens_view(out@) + merge_spec(sv.skip(i + 2), token@)
                        =~= tokens_view(out_before) + merge_spec(tail, token@));
                }
                i = i + 2;
            } else {
                let piece = tokenized_corpus[i].clone();
                out.push(piece);
                proof {
                    lemma_tokens_view_push(out_before, piece);
                    assert(tail.skip(1) =~= sv.skip(i + 1));
                    assert(tokens_view(out@) + merge_spec(sv.skip(i + 1), token@)
                        =~= tokens_view(out_before) + merge_spec(tail, token@));
                }
                i = i + 1;
            }
        } else {
            let piece = tokenized_corpus[i].clone();
            out.push(piece);
            proof {
                lemma_tokens_view_push(out_before, piece);
                assert(tail.len() == 1);
                assert(sv.skip(i + 1) =~= Seq::<Seq<char>>::empty());
                assert(merge_spec(sv.skip(i + 1), token@) =~= Seq::<Seq<char>>::empty());
                assert(tokens_view(out@) + merge_spec(sv.skip(i + 1), token@)
                    =~= tokens_view(out_before) + merge_spec(tail, token@));
            }
            i = i + 1;
        }
    }
    proof {
        assert(sv.skip(n as int) =~= Seq::<Seq<char>>::empty());
        assert(tokens_view(out@) =~= merge_spec(sv, token@));
    }
    out
}

} // verus!
