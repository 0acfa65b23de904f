//! The training loop: count pairs, select the best candidate, record it in
//! the vocabulary, rewrite the corpus, and repeat until the best candidate's
//! frequency drops below the threshold.
//!
//! The vocabulary starts seeded with every distinct single character of the
//! corpus and only ever gains entries.  Each productive iteration strictly
//! shortens the tokenized sequence, which bounds the number of iterations by
//! the corpus length.

use vstd::prelude::*;
use vstd::string::StrSliceExecFns;

use crate::counter::count_pairs;
use crate::counter::lemma_pair_count_window;
use crate::counter::lemma_table_upto_ok;
use crate::counter::pair_count;
use crate::counter::pair_table_spec;
use crate::counter::window_matches;
use crate::rewrite::adjacent_pair;
use crate::rewrite::has_adjacent_pair;
use crate::rewrite::lemma_merge_len;
use crate::rewrite::lemma_merge_nonempty;
use crate::rewrite::merge_spec;
use crate::rewrite::merge_tokenized_corpus;
use crate::selector::lemma_select_spec_props;
use crate::selector::select_best;
use crate::selector::select_spec;
use crate::table::lemma_entry_count_member;
use crate::table::lemma_entry_count_present;
use crate::text::lex_le;
use crate::text::substring_copy;
use crate::text::tokens_nonempty;
use crate::text::tokens_view;
use crate::vocab::vocab_insert_spec;
use crate::vocab::vocab_wf;
use crate::vocab::Vocabulary;

verus! {

/// The failure of a training request.
#[derive(Debug, PartialEq, Eq, Structural)]
pub enum TrainError {
    /// The corpus holds fewer than two characters, so no adjacent pair can
    /// ever be counted.
    PreconditionViolation,
}

/// The best candidate of a sequence: the pair table's selection.
pub open spec fn best_candidate(s: Seq<Seq<char>>, filter_ws: bool) -> (Seq<char>, nat) {
    select_spec(pair_table_spec(s, filter_ws))
}

/// Seeding one token: each of its characters becomes a single-character
/// vocabulary entry, in order of first appearance.
pub open spec fn seed_token(v: Seq<(Seq<char>, nat)>, tok: Seq<char>) -> Seq<(Seq<char>, nat)>
    decreases tok.len(),
{
    if tok.len() == 0 {
        v
    } else {
        seed_token(vocab_insert_spec(v, seq![tok[0]]), tok.skip(1))
    }
}

/// Seeding a whole tokenized sequence, token by token.
pub open spec fn seed_tokens(v: Seq<(Seq<char>, nat)>, s: Seq<Seq<char>>) -> Seq<(Seq<char>, nat)>
    decreases s.len(),
{
    if s.len() == 0 {
        v
    } else {
        seed_tokens(seed_token(v, s[0]), s.skip(1))
    }
}

/// The seed vocabulary of a corpus: every distinct single character.
pub open spec fn seed_vocabulary_spec(s: Seq<Seq<char>>) -> Seq<(Seq<char>, nat)> {
    seed_tokens(Seq::empty(), s)
}

proof fn lemma_seed_token_snoc(v: Seq<(Seq<char>, nat)>, t: Seq<char>, c: char)
    ensures
        seed_token(v, t.push(c)) == vocab_insert_spec(seed_token(v, t), seq![c]),
    decreases t.len(),
{
    if t.len() == 0 {
        assert(t.push(c)[0] == c);
        assert(t.push(c).skip(1) =~= t);
        assert(seed_token(v, t.push(c)) == seed_token(vocab_insert_spec(v, seq![c]), t));
    } else {
        lemma_seed_token_snoc(vocab_insert_spec(v, seq![t[0]]), t.skip(1), c);
        assert(t.push(c)[0] == t[0]);
        assert(t.push(c).skip(1) =~= t.skip(1).push(c));
    }
}

proof fn lemma_seed_tokens_snoc(v: Seq<(Seq<char>, nat)>, s: Seq<Seq<char>>, tok: Seq<char>)
    ensures
        seed_tokens(v, s.push(tok)) == seed_token(seed_tokens(v, s), tok),
    decreases s.len(),
{
    if s.len() == 0 {
        assert(s.push(tok)[0] == tok);
        assert(s.push(tok).skip(1) =~= s);
        assert(seed_tokens(v, s.push(tok)) == seed_tokens(seed_token(v, tok), s));
    } else {
        lemma_seed_tokens_snoc(seed_token(v, s[0]), s.skip(1), tok);
        assert(s.push(tok)[0] == s[0]);
        assert(s.push(tok).skip(1) =~= s.skip(1).push(tok));
    }
}

/// Seeds a vocabulary with every distinct single character of the corpus,
/// in order of first appearance, each stored with length one.
pub fn seed_vocabulary(corpus: &Vec<String>) -> (r: Vocabulary)
    ensures
        r@ == seed_vocabulary_spec(tokens_view(corpus@)),
        vocab_wf(r@),
{
    let ghost sv = tokens_view(corpus@);
    let mut vocab = Vocabulary::new();
    let n = corpus.len();
    let mut i: usize = 0;
    proof {
        assert(sv.take(0) =~= Seq::<Seq<char>>::empty());
    }
    while i < n
        invariant
            i <= n,
            n == corpus.len(),
            sv == tokens_view(corpus@),
            sv.len() == n,
            vocab@ == seed_tokens(Seq::empty(), sv.take(i as int)),
            vocab_wf(vocab@),
        decreases n - i,
    {
        let token = &corpus[i];
        let ghost tv = sv[i as int];
        proof {
            assert(tv == corpus@[i as int]@);
        }
        let m = token.as_str().unicode_len();
        let mut j: usize = 0;
        proof {
            assert(tv.take(0) =~= Seq::<char>::empty());
            assert(seed_token(vocab@, tv.take(0)) == vocab@);
        }
        while j < m
            invariant
                j <= m,
                m == tv.len(),
                tv == corpus@[i as int]@,
                token@ == tv,
                i < n,
                n == corpus.len(),
                vocab@ == seed_token(seed_tokens(Seq::empty(), sv.take(i as int)), tv.take(
                    j as int,
                )),
                vocab_wf(vocab@),
                sv == tokens_view(corpus@),
                sv.len() == n,
            decreases m - j,
        {
            let single = substring_copy(token.as_str(), j, j + 1);
            proof {
                assert(single@ =~= seq![tv[j as int]]);
                assert(tv.take(j + 1) =~= tv.take(j as int).push(tv[j as int]));
                lemma_seed_token_snoc(
                    seed_tokens(Seq::empty(), sv.take(i as int)),
                    tv.take(j as int),
                    tv[j as int],
                );
            }
            vocab.insert_token(single);
            j = j + 1;
        }
        proof {
            assert(tv.take(m as int) =~= tv);
            assert(sv.take(i + 1) =~= sv.take(i as int).push(tv));
            lemma_seed_tokens_snoc(Seq::empty(), sv.take(i as int), tv);
        }
        i = i + 1;
    }
    proof {
        assert(sv.take(n as int) =~= sv);
    }
    vocab
}

/// What the selection means over the window counts themselves: an empty
/// table yields the zero-count sentinel with the empty candidate; otherwise
/// the chosen frequency is the maximum count over all candidates, the chosen
/// candidate attains it, and of all candidates of that maximal count the
/// chosen one is the lexicographically smallest — two candidates of equal
/// maximal count always resolve to the lex-smaller one.
pub proof fn lemma_best_candidate_props(s: Seq<Seq<char>>, filter_ws: bool)
    ensures
        ({
            let best = best_candidate(s, filter_ws);
            &&& forall|k: Seq<char>| #[trigger] pair_count(s, filter_ws, k) <= best.1
            &&& best.1 >= 1 ==> pair_count(s, filter_ws, best.0) == best.1
            &&& best.1 == 0 ==> best.0 == Seq::<char>::empty()
            &&& forall|k: Seq<char>|
                #[trigger] pair_count(s, filter_ws, k) == best.1 && best.1 >= 1 ==> lex_le(
                    best.0,
                    k,
                )
        }),
{
    let best = best_candidate(s, filter_ws);
    let table = pair_table_spec(s, filter_ws);
    lemma_table_upto_ok(s, filter_ws, s.len() - 1);
    lemma_select_spec_props(table);
    assert forall|k: Seq<char>| #[trigger] pair_count(s, filter_ws, k) <= best.1 by {
        if pair_count(s, filter_ws, k) >= 1 {
            lemma_entry_count_present(table, k);
            let i = choose|i: int| 0 <= i < table.len() && (#[trigger] table[i]).0 == k;
            lemma_entry_count_member(table, i);
        }
    }
    if best.1 >= 1 {
        let i = choose|i: int| 0 <= i < table.len() && #[trigger] table[i] == best;
        lemma_entry_count_member(table, i);
        assert forall|k: Seq<char>|
            #[trigger] pair_count(s, filter_ws, k) == best.1 && best.1 >= 1 implies lex_le(
            best.0,
            k,
        ) by {
            lemma_entry_count_present(table, k);
            let j = choose|j: int| 0 <= j < table.len() && (#[trigger] table[j]).0 == k;
            lemma_entry_count_member(table, j);
        }
    }
}

/// A candidate whose frequency is positive names a real adjacent window, so
/// its key is non-empty and rewriting on it strictly shortens the sequence.
proof fn lemma_best_candidate_window(s: Seq<Seq<char>>, filter_ws: bool)
    requires
        tokens_nonempty(s),
        best_candidate(s, filter_ws).1 >= 1,
    ensures
        best_candidate(s, filter_ws).0.len() >= 1,
        has_adjacent_pair(s, best_candidate(s, filter_ws).0),
        merge_spec(s, best_candidate(s, filter_ws).0).len() < s.len(),
{
    let best = best_candidate(s, filter_ws);
    let table = pair_table_spec(s, filter_ws);
    lemma_table_upto_ok(s, filter_ws, s.len() - 1);
    lemma_select_spec_props(table);
    let i = choose|i: int| 0 <= i < table.len() && #[trigger] table[i] == best;
    lemma_entry_count_member(table, i);
    assert(pair_count(s, filter_ws, best.0) >= 1);
    lemma_pair_count_window(s, filter_ws, best.0, s.len() - 1);
    let w = choose|w: int| window_matches(s, filter_ws, best.0, w);
    assert(adjacent_pair(s, w) == best.0);
    assert(has_adjacent_pair(s, best.0));
    assert(best.0.len() == s[w].len() + s[w + 1].len());
    lemma_merge_len(s, best.0);
}

/// One training iteration: counts the pairs of `tokenized_corpus`, selects
/// the best candidate, and returns its frequency beside the next sequence.
/// When the frequency reaches `token_frequency`, the candidate is recorded
/// in `vocabulary` and the sequence is rewritten on it; below the threshold
/// nothing is recorded and the sequence comes back unchanged.
pub fn build_bpe_vocabulary(
    tokenized_corpus: &Vec<String>,
    vocabulary: &mut Vocabulary,
    token_frequency: usize,
    filter_ws: bool,
) -> (r: (usize, Vec<String>))
    requires
        tokenized_corpus.len() >= 1,
        tokens_nonempty(tokens_view(tokenized_corpus@)),
        vocab_wf(old(vocabulary)@),
        token_frequency >= 1,
    ensures
        ({
            let best = best_candidate(tokens_view(tokenized_corpus@), filter_ws);
            &&& r.0 as nat == best.1
            &&& tokens_view(r.1@) == (if best.1 >= token_frequency {
                merge_spec(tokens_view(tokenized_corpus@), best.0)
            } else {
                tokens_view(tokenized_corpus@)
            })
            &&& final(vocabulary)@ == (if best.1 >= token_frequency {
                vocab_insert_spec(old(vocabulary)@, best.0)
            } else {
                old(vocabulary)@
            })
            &&& vocab_wf(final(vocabulary)@)
        }),
{
    let ghost sv = tokens_view(tokenized_corpus@);
    let table = count_pairs(tokenized_corpus, filter_ws);
    let selection = select_best(&table);
    let token = selection.0;
    let freq = selection.1;
    if freq >= token_frequency {
        proof {
            lemma_best_candidate_window(sv, filter_ws);
        }
        vocabulary.insert_token(token.clone());
        let merged = merge_tokenized_corpus(tokenized_corpus, token);
        (freq, merged)
    } else {
        let unchanged = clone_tokens(tokenized_corpus);
        (freq, unchanged)
    }
}

/// The training loop as a function of the sequence and the vocabulary so
/// far: stop as soon as the best candidate's frequency is below the
/// threshold, otherwise record it, rewrite, and continue.
pub open spec fn train_loop_spec(
    s: Seq<Seq<char>>,
    v: Seq<(Seq<char>, nat)>,
    threshold: nat,
    filter_ws: bool,
) -> (Seq<(Seq<char>, nat)>, Seq<Seq<char>>)
    decreases s.len(),
{
    let best = best_candidate(s, filter_ws);
    if best.1 < threshold {
        (v, s)
    } else {
        let v2 = vocab_insert_spec(v, best.0);
        let s2 = merge_spec(s, best.0);
        if s2.len() < s.len() {
            train_loop_spec(s2, v2, threshold, filter_ws)
        } else {
            (v2, s2)
        }
    }
}

/// How many productive iterations the training loop makes on `s` before the
/// best candidate's frequency drops below `threshold`.
pub open spec fn train_iterations(s: Seq<Seq<char>>, threshold: nat, filter_ws: bool) -> nat
    decreases s.len(),
{
    let best = best_candidate(s, filter_ws);
    if best.1 < threshold {
        0
    } else {
        let s2 = merge_spec(s, best.0);
        if s2.len() < s.len() {
            1 + train_iterations(s2, threshold, filter_ws)
        } else {
            1
        }
    }
}

/// Termination: training makes at most as many iterations as the corpus has
/// tokens, since each productive iteration strictly shortens the sequence.
pub proof fn lemma_train_iterations_bounded(s: Seq<Seq<char>>, threshold: nat, filter_ws: bool)
    requires
        threshold >= 1,
    ensures
        train_iterations(s, threshold, filter_ws) <= s.len(),
    decreases s.len(),
{
    let best = best_candidate(s, filter_ws);
    if best.1 < threshold {
    } else {
        // A candidate of positive frequency names a window, so the sequence
        // holds at least two tokens and the merge shortens it.
        let table = pair_table_spec(s, filter_ws);
        lemma_table_upto_ok(s, filter_ws, s.len() - 1);
        lemma_select_spec_props(table);
        let i = choose|i: int| 0 <= i < table.len() && #[trigger] table[i] == best;
        lemma_entry_count_member(table, i);
        lemma_pair_count_window(s, filter_ws, best.0, s.len() - 1);
        let w = choose|w: int| window_matches(s, filter_ws, best.0, w);
        assert(s.len() >= 2);
        let s2 = merge_spec(s, best.0);
        if s2.len() < s.len() {
            lemma_train_iterations_bounded(s2, threshold, filter_ws);
        }
    }
}

/// Monotonic vocabulary growth: across a whole training run the vocabulary
/// only gains entries; every entry present at the start is still present,
/// unchanged and at its position, at the end.
pub proof fn lemma_train_monotonic(
    s: Seq<Seq<char>>,
    v: Seq<(Seq<char>, nat)>,
    threshold: nat,
    filter_ws: bool,
)
    ensures
        train_loop_spec(s, v, threshold, filter_ws).0.len() >= v.len(),
        forall|i: int|
            0 <= i < v.len() ==> train_loop_spec(s, v, threshold, filter_ws).0[i] == #[trigger] v[i],
    decreases s.len(),
{
    let best = best_candidate(s, filter_ws);
    if best.1 < threshold {
    } else {
        let v2 = vocab_insert_spec(v, best.0);
        let s2 = merge_spec(s, best.0);
        let end = train_loop_spec(s, v, threshold, filter_ws);
        if s2.len() < s.len() {
            lemma_train_monotonic(s2, v2, threshold, filter_ws);
            assert forall|i: int| 0 <= i < v.len() implies end.0[i] == #[trigger] v[i] by {
                assert(v2[i] == v[i]);
                assert(end.0 == train_loop_spec(s2, v2, threshold, filter_ws).0);
                assert(end.0[i] == v2[i]);
            }
        } else {
            assert forall|i: int| 0 <= i < v.len() implies end.0[i] == #[trigger] v[i] by {
                assert(end.0 == v2);
                assert(v2[i] == v[i]);
            }
        }
    }
}

/// Runs the trainer to completion: seeds the vocabulary with the corpus's
/// single characters, then counts, selects, records and rewrites until the
/// best candidate's frequency drops below `token_frequency`.  A corpus of
/// fewer than two characters is rejected.
pub fn train(initial: &Vec<String>, token_frequency: usize, filter_ws: bool) -> (r: Result<
    (Vocabulary, Vec<String>),
    TrainError,
>)
    requires
        token_frequency >= 1,
        tokens_nonempty(tokens_view(initial@)),
    ensures
        ({
            let sv = tokens_view(initial@);
            match r {
                Ok(out) => {
                    let end = train_loop_spec(
                        sv,
                        seed_vocabulary_spec(sv),
                        token_frequency as nat,
                        filter_ws,
                    );
                    &&& sv.flatten().len() >= 2
                    &&& out.0@ == end.0
                    &&& tokens_view(out.1@) == end.1
                    &&& vocab_wf(out.0@)
                },
                Err(e) => e == TrainError::PreconditionViolation && sv.flatten().len() < 2,
            }
        }),
{
    let ghost sv = tokens_view(initial@);
    if !corpus_has_two_chars(initial) {
        return Err(TrainError::PreconditionViolation);
    }
    let mut vocab = seed_vocabulary(initial);
    let mut sequence = clone_tokens(initial);
    proof {
        if sv.len() == 0 {
            assert(sv.flatten().len() == 0);
        }
    }
    let ghost goal = train_loop_spec(sv, seed_vocabulary_spec(sv), token_frequency as nat, filter_ws);
    loop
        invariant
            token_frequency >= 1,
            sequence.len() >= 1,
            tokens_nonempty(tokens_view(sequence@)),
            vocab_wf(vocab@),
            train_loop_spec(
                tokens_view(sequence@),
                vocab@,
                token_frequency as nat,
                filter_ws,
            ) == goal,
        ensures
            vocab@ == goal.0,
            tokens_view(sequence@) == goal.1,
            vocab_wf(vocab@),
        decreases sequence.len(),
    {
        let ghost seq_before = tokens_view(sequence@);
        let step = build_bpe_vocabulary(&sequence, &mut vocab, token_frequency, filter_ws);
        let freq = step.0;
        let merged = step.1;
        if freq < token_frequency {
            break;
        }
        proof {
            let best = best_candidate(seq_before, filter_ws);
            lemma_best_candidate_window(seq_before, filter_ws);
            lemma_merge_len(seq_before, best.0);
            lemma_merge_nonempty(seq_before, best.0);
        }
        sequence = merged;
    }
    Ok((vocab, sequence))
}

/// Whether the corpus holds at least two characters in all.
fn corpus_has_two_chars(corpus: &Vec<String>) -> (r: bool)
    ensures
        r == (tokens_view(corpus@).flatten().len() >= 2),
{
    let ghost sv = tokens_view(corpus@);
    let n = corpus.len();
    let mut seen: usize = 0;
    let mut i: usize = 0;
    proof {
        assert(sv.take(0) =~= Seq::<Seq<char>>::empty());
    }
    while i < n && seen < 2
        invariant
            i <= n,
            n == corpus.len(),
            sv == tokens_view(corpus@),
            sv.len() == n,
            seen <= 2,
            seen == (if sv.take(i as int).flatten().len() >= 2 {
                2
            } else {
                sv.take(i as int).flatten().len()
            }),
        decreases n - i,
    {
        let l = corpus[i].as_str().unicode_len();
        proof {
            assert(sv[i as int] == corpus@[i as int]@);
            assert(sv.take(i + 1) =~= sv.take(i as int).push(sv[i as int]));
            sv.take(i as int).lemma_flatten_push(sv[i as int]);
        }
        if l >= 2 {
            seen = 2;
        } else if seen + l >= 2 {
            seen = 2;
        } else {
            seen = seen + l;
        }
        i = i + 1;
    }
    proof {
        if i == n {
            assert(sv.take(n as int) =~= sv);
        } else {
            // The scan stopped early with two characters already seen; the
            // remaining tokens only lengthen the concatenation.
            assert(seen == 2);
            vstd::seq_lib::lemma_flatten_concat(sv.take(i as int), sv.skip(i as int));
            assert(sv.take(i as int) + sv.skip(i as int) =~= sv);
        }
    }
    seen >= 2
}

/// Copies a tokenized sequence.
fn clone_tokens(v: &Vec<String>) -> (r: Vec<String>)
    ensures
        r@ == v@,
{
    let n = v.len();
    let mut out: Vec<String> = Vec::new();
    let mut i: usize = 0;
    while i < n
        invariant
            i <= n,
            n == v.len(),
            out@ == v@.take(i as int),
        decreases n - i,
    {
        let piece = v[i].clone();
        out.push(piece);
        proof {
            assert(v@.take(i + 1) =~= v@.take(i as int).push(v@[i as int]));
        }
        i = i + 1;
    }
    proof {
        assert(v@.take(n as int) =~= v@);
    }
    out
}

} // verus!
