//! Splitting a string on a separator while keeping each separator occurrence
//! as its own piece.
//!
//! `split_spec` describes the result exactly: occurrences are found leftmost
//! first and never overlap, the text between occurrences is kept as one piece
//! when it is non-empty, and every occurrence becomes a piece of its own.
//! Concatenating the pieces reproduces the input.

use vstd::prelude::*;
use vstd::string::StrSliceExecFns;

use crate::text::is_match_at;
use crate::text::match_at;
use crate::text::substring_copy;
use crate::text::tokens_view;

verus! {

/// The position of the leftmost occurrence of `sep` in `s`, if any.
pub open spec fn find_first(s: Seq<char>, sep: Seq<char>) -> Option<int>
    decreases s.len(),
{
    if sep.len() > s.len() {
        None
    } else if s.subrange(0, sep.len() as int) == sep {
        Some(0)
    } else if s.len() == 0 {
        None
    } else {
        match find_first(s.skip(1), sep) {
            Some(p) => Some(p + 1),
            None => None,
        }
    }
}

/// A found position lies within `s`, with room for the whole separator.
pub proof fn lemma_find_first_bounds(s: Seq<char>, sep: Seq<char>)
    ensures
        find_first(s, sep) is Some ==> {
            let p = find_first(s, sep)->Some_0;
            0 <= p && p + sep.len() <= s.len()
        },
    decreases s.len(),
{
    if sep.len() > s.len() {
    } else if s.subrange(0, sep.len() as int) == sep {
    } else if s.len() == 0 {
    } else {
        lemma_find_first_bounds(s.skip(1), sep);
    }
}

/// `find_first` returns the leftmost match position, or `None` exactly when
/// no position matches.
pub proof fn lemma_find_first(s: Seq<char>, sep: Seq<char>)
    ensures
        match find_first(s, sep) {
            Some(p) => is_match_at(s, sep, p) && forall|j: int|
                0 <= j < p ==> !is_match_at(s, sep, j),
            None => forall|j: int| !is_match_at(s, sep, j),
        },
    decreases s.len(),
{
    if sep.len() > s.len() {
        assert(forall|j: int| !is_match_at(s, sep, j));
    } else if s.subrange(0, sep.len() as int) == sep {
        assert(is_match_at(s, sep, 0));
    } else if s.len() == 0 {
        assert(forall|j: int| !is_match_at(s, sep, j));
    } else {
        lemma_find_first(s.skip(1), sep);
        assert forall|j: int| 1 <= j && j + sep.len() <= s.len() implies is_match_at(s, sep, j)
            == is_match_at(s.skip(1), sep, j - 1) by {
            assert(s.subrange(j, j + sep.len() as int) =~= s.skip(1).subrange(
                j - 1,
                j - 1 + sep.len() as int,
            ));
        }
        assert(!is_match_at(s, sep, 0));
    }
}

/// A match of `sep` within the suffix `s.skip(w)` is a match within `s`,
/// shifted by `w`.
pub proof fn lemma_match_shift(s: Seq<char>, sep: Seq<char>, w: int)
    requires
        0 <= w <= s.len(),
    ensures
        forall|j: int|
            #![trigger is_match_at(s.skip(w), sep, j)]
            0 <= j && j + sep.len() <= s.len() - w ==> is_match_at(s.skip(w), sep, j)
                == is_match_at(s, sep, j + w),
{
    assert forall|j: int| 0 <= j && j + sep.len() <= s.len() - w implies #[trigger] is_match_at(
        s.skip(w),
        sep,
        j,
    ) == is_match_at(s, sep, j + w) by {
        assert(s.skip(w).subrange(j, j + sep.len() as int) =~= s.subrange(
            j + w,
            j + w + sep.len() as int,
        ));
    }
}

/// The pieces of `s` split on leftmost, non-overlapping occurrences of `sep`,
/// with each occurrence kept as a piece of its own and empty pieces dropped.
pub open spec fn split_spec(s: Seq<char>, sep: Seq<char>) -> Seq<Seq<char>>
    recommends
        sep.len() >= 1,
    decreases s.len(),
{
    if sep.len() == 0 {
        Seq::empty()
    } else {
        match find_first(s, sep) {
            None => if s.len() == 0 {
                Seq::empty()
            } else {
                seq![s]
            },
            Some(p) => {
                proof {
                    lemma_find_first_bounds(s, sep);
                }
                let rest = split_spec(s.skip(p + sep.len()), sep);
                if p == 0 {
                    seq![sep] + rest
                } else {
                    seq![s.subrange(0, p)] + seq![sep] + rest
                }
            },
        }
    }
}

/// Flattening a sequence of pieces that starts with `x` concatenates `x` in
/// front of the flattened remainder.
pub proof fn lemma_flatten_cons(x: Seq<char>, rest: Seq<Seq<char>>)
    ensures
        (seq![x] + rest).flatten() == x + rest.flatten(),
{
    assert((seq![x] + rest).first() == x);
    assert((seq![x] + rest).drop_first() =~= rest);
}

/// Concatenating the pieces of a split reproduces the input.
pub proof fn lemma_split_concat(s: Seq<char>, sep: Seq<char>)
    requires
        sep.len() >= 1,
    ensures
        split_spec(s, sep).flatten() == s,
    decreases s.len(),
{
    lemma_find_first(s, sep);
    lemma_find_first_bounds(s, sep);
    match find_first(s, sep) {
        None => {
            if s.len() == 0 {
                assert(split_spec(s, sep).flatten() =~= s);
            } else {
                lemma_flatten_cons(s, Seq::empty());
                assert(seq![s] + Seq::<Seq<char>>::empty() =~= seq![s]);
                assert(s + Seq::<Seq<char>>::empty().flatten() =~= s);
            }
        },
        Some(p) => {
            let tail = s.skip(p + sep.len());
            lemma_split_concat(tail, sep);
            let rest = split_spec(tail, sep);
            assert(s.subrange(p, p + sep.len() as int) == sep);
            if p == 0 {
                lemma_flatten_cons(sep, rest);
                assert(sep + tail =~= s);
            } else {
                let head = s.subrange(0, p);
                lemma_flatten_cons(sep, rest);
                lemma_flatten_cons(head, seq![sep] + rest);
                assert(seq![head] + (seq![sep] + rest) =~= seq![head] + seq![sep] + rest);
                assert(head + (sep + tail) =~= s);
            }
        },
    }
}

/// No piece of a split is empty.
pub proof fn lemma_split_pieces_nonempty(s: Seq<char>, sep: Seq<char>)
    requires
        sep.len() >= 1,
    ensures
        forall|i: int|
            0 <= i < split_spec(s, sep).len() ==> (#[trigger] split_spec(s, sep)[i]).len() >= 1,
    decreases s.len(),
{
    lemma_find_first(s, sep);
    lemma_find_first_bounds(s, sep);
    match find_first(s, sep) {
        None => {},
        Some(p) => {
            let tail = s.skip(p + sep.len());
            lemma_split_pieces_nonempty(tail, sep);
            let rest = split_spec(tail, sep);
            let pieces = split_spec(s, sep);
            assert forall|i: int| 0 <= i < pieces.len() implies (#[trigger] pieces[i]).len()
                >= 1 by {
                if p == 0 {
                    if i >= 1 {
                        assert(pieces[i] == rest[i - 1]);
                    }
                } else {
                    if i == 0 {
                        assert(pieces[0] == s.subrange(0, p));
                    } else if i >= 2 {
                        assert(pieces[i] == rest[i - 2]);
                    }
                }
            }
        },
    }
}

/// `tokens_view` distributes over `push`.
pub proof fn lemma_tokens_view_push(out: Seq<String>, t: String)
    ensures
        tokens_view(out.push(t)) =~= tokens_view(out).push(t@),
{
}

/// Splits `s` into pieces on every leftmost, non-overlapping occurrence of
/// `separator`, keeping each occurrence as a piece of its own.
pub fn split_with_separators(s: &str, separator: String) -> (r: Vec<String>)
    requires
        separator@.len() >= 1,
    ensures
        tokens_view(r@) == split_spec(s@, separator@),
{
    let s_len = s.unicode_len();
    let sep_len = separator.as_str().unicode_len();
    let mut out: Vec<String> = Vec::new();
    let mut walker: usize = 0;
    let mut i: usize = 0;
    proof {
        assert(s@.skip(0) =~= s@);
        assert(tokens_view(out@) + split_spec(s@, separator@) =~= split_spec(s@, separator@));
    }
    while sep_len <= s_len && i <= s_len - sep_len
        invariant
            s_len == s@.len(),
            sep_len == separator@.len(),
            sep_len >= 1,
            walker <= i <= s_len,
            forall|j: int| walker <= j < i ==> !is_match_at(s@, separator@, j),
            split_spec(s@, separator@) == tokens_view(out@) + split_spec(
                s@.skip(walker as int),
                separator@,
            ),
        decreases s_len - i,
    {
        if match_at(s, &separator, i, sep_len) {
            let ghost tail = s@.skip(walker as int);
            let ghost rel = i - walker;
            proof {
                lemma_match_shift(s@, separator@, walker as int);
                lemma_find_first(tail, separator@);
                assert(is_match_at(tail, separator@, rel));
                if find_first(tail, separator@) != Some(rel) {
                    // The leftmost match in the suffix cannot lie before
                    // position `rel`: those positions were already scanned.
                    let q = find_first(tail, separator@)->Some_0;
                    assert(!is_match_at(s@, separator@, q + walker));
                    assert(false);
                }
                assert(tail.skip(rel + separator@.len()) =~= s@.skip(i + sep_len));
            }
            let ghost out_before = out@;
            if walker != i {
                let piece = substring_copy(s, walker, i);
                proof {
                    assert(tail.subrange(0, rel) =~= s@.subrange(walker as int, i as int));
                }
                out.push(piece);
                proof {
                    lemma_tokens_view_push(out_before, piece);
                }
                let ghost out_mid = out@;
                out.push(separator.clone());
                proof {
                    lemma_tokens_view_push(out_mid, separator);
                    assert(tokens_view(out@) + split_spec(s@.skip(i + sep_len), separator@)
                        =~= tokens_view(out_before) + split_spec(tail, separator@));
                }
            } else {
                out.push(separator.clone());
                proof {
                    lemma_tokens_view_push(out_before, separator);
                    assert(tokens_view(out@) + split_spec(s@.skip(i + sep_len), separator@)
                        =~= tokens_view(out_before) + split_spec(tail, separator@));
                }
            }
            i = i + sep_len;
            walker = i;
        } else {
            i = i + 1;
        }
    }
    proof {
        let tail = s@.skip(walker as int);
        lemma_match_shift(s@, separator@, walker as int);
        lemma_find_first(tail, separator@);
        lemma_find_first_bounds(tail, separator@);
        if find_first(tail, separator@) is Some {
            let q = find_first(tail, separator@)->Some_0;
            assert(is_match_at(tail, separator@, q));
            // The match fits inside `s`, so the separator is no longer than
            // `s` and the match position was scanned by the loop.
            assert(q + walker + sep_len <= s_len);
            assert(walker <= q + walker < i);
            assert(!is_match_at(s@, separator@, q + walker));
            assert(false);
        }
    }
    if walker != s_len {
        let ghost out_before = out@;
        let piece = substring_copy(s, walker, s_len);
        proof {
            assert(s@.subrange(walker as int, s_len as int) =~= s@.skip(walker as int));
        }
        out.push(piece);
        proof {
            lemma_tokens_view_push(out_before, piece);
            assert(tokens_view(out@) =~= split_spec(s@, separator@));
        }
    } else {
        proof {
            assert(tokens_view(out@) =~= split_spec(s@, separator@));
        }
    }
    out
}

/// The historical form of the splitting utility; it takes its arguments by
/// value and produces the same pieces as `split_with_separators`.
pub fn split_with_separators_old(s: String, separator: String) -> (r: Vec<String>)
    requires
        separator@.len() >= 1,
    ensures
        tokens_view(r@) == split_spec(s@, separator@),
{
    split_with_separators(s.as_str(), separator)
}

} // verus!
