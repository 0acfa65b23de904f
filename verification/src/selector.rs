//! Selecting the best merge candidate from a candidate-pair table.
//!
//! Entries are visited in ascending lexicographic key order and the running
//! best is replaced only on a strictly greater count, so among all candidates
//! of maximal count the lexicographically smallest one wins.  An empty table
//! yields the sentinel of an empty candidate with count zero.

use vstd::prelude::*;

use crate::table::entries_sorted;
use crate::table::table_wf;
use crate::table::CandidatePairTable;
use crate::text::lemma_lex_trichotomy;
use crate::text::lex_le;
use crate::text::lex_lt;

verus! {

/// The selection: visit entries in ascending key order, keeping the first
/// candidate whose count no later candidate strictly exceeds.
pub open spec fn select_spec(es: Seq<(Seq<char>, nat)>) -> (Seq<char>, nat)
    decreases es.len(),
{
    if es.len() == 0 {
        (Seq::empty(), 0 as nat)
    } else {
        let prev = select_spec(es.drop_last());
        if es.last().1 > prev.1 {
            (es.last().0, es.last().1)
        } else {
            prev
        }
    }
}

/// The selected candidate has the maximal count; with a positive count it is
/// one of the entries, and in a well-formed table it is the lexicographically
/// smallest entry of maximal count.
pub proof fn lemma_select_spec_props(es: Seq<(Seq<char>, nat)>)
    ensures
        forall|i: int| 0 <= i < es.len() ==> (#[trigger] es[i]).1 <= select_spec(es).1,
        select_spec(es).1 > 0 ==> exists|i: int|
            0 <= i < es.len() && #[trigger] es[i] == select_spec(es),
        select_spec(es).1 == 0 ==> select_spec(es).0 == Seq::<char>::empty(),
        entries_sorted(es) ==> forall|i: int|
            0 <= i < es.len() && (#[trigger] es[i]).1 == select_spec(es).1 ==> lex_le(
                select_spec(es).0,
                es[i].0,
            ),
    decreases es.len(),
{
    if es.len() == 0 {
    } else {
        let front = es.drop_last();
        lemma_select_spec_props(front);
        let prev = select_spec(front);
        let sel = select_spec(es);
        assert(forall|i: int| 0 <= i < front.len() ==> front[i] == es[i]);
        if entries_sorted(es) {
            assert(entries_sorted(front));
            assert forall|i: int|
                0 <= i < es.len() && (#[trigger] es[i]).1 == sel.1 implies lex_le(
                sel.0,
                es[i].0,
            ) by {
                if es.last().1 > prev.1 {
                    // The last entry replaced the running best, so every
                    // earlier entry has a strictly smaller count.
                    if i < es.len() - 1 {
                        assert(es[i].1 <= prev.1);
                        assert(false);
                    }
                } else {
                    if i == es.len() - 1 {
                        // A tie with the last entry.  The running best is
                        // either the zero-count sentinel, whose empty key
                        // precedes every key, or an earlier entry, whose key
                        // is smaller by the sort order.
                        assert(prev.1 == es.last().1);
                        if prev.1 == 0 {
                            assert(sel.0 == Seq::<char>::empty());
                            if es[i].0.len() == 0 {
                                assert(sel.0 =~= es[i].0);
                            } else {
                                assert(lex_lt(sel.0, es[i].0));
                            }
                        } else {
                            let j = choose|j: int|
                                0 <= j < front.len() && #[trigger] front[j] == prev;
                            assert(lex_lt(es[j].0, es[i].0));
                        }
                    }
                }
            }
        }
    }
}

/// Picks the best candidate pair and its count; the sentinel of an empty
/// candidate with count zero stands for an empty table.
pub fn select_best(table: &CandidatePairTable) -> (r: (String, usize))
    ensures
        (r.0@, r.1 as nat) == select_spec(table@),
{
    let mut best_token = String::new();
    let mut best_count: usize = 0;
    let n = table.num_entries();
    let mut i: usize = 0;
    proof {
        assert(table@.take(0) =~= Seq::<(Seq<char>, nat)>::empty());
    }
    while i < n
        invariant
            i <= n,
            n == table@.len(),
            (best_token@, best_count as nat) == select_spec(table@.take(i as int)),
        decreases n - i,
    {
        let entry = table.entry_at(i);
        proof {
            assert(table@.take(i + 1).drop_last() =~= table@.take(i as int));
            assert(table@.take(i + 1).last() == table@[i as int]);
        }
        if entry.1 > best_count {
            best_token = entry.0.clone();
            best_count = entry.1;
        }
        i = i + 1;
    }
    proof {
        assert(table@.take(n as int) =~= table@);
    }
    (best_token, best_count)
}

/// Tie-break determinism: when exactly the entries at `i` and `j` carry the
/// maximal count and the key at `i` is the lexicographically smaller one, the
/// selection returns the entry at `i`.
pub proof fn lemma_tie_break(es: Seq<(Seq<char>, nat)>, i: int, j: int)
    requires
        table_wf(es),
        0 <= i < es.len(),
        0 <= j < es.len(),
        es[i].1 == es[j].1,
        lex_lt(es[i].0, es[j].0),
        forall|k: int| 0 <= k < es.len() ==> (#[trigger] es[k]).1 <= es[i].1,
        forall|k: int| 0 <= k < es.len() && (#[trigger] es[k]).1 == es[i].1 ==> k == i || k == j,
    ensures
        select_spec(es) == es[i],
{
    lemma_select_spec_props(es);
    let sel = select_spec(es);
    assert(sel.1 >= es[i].1 >= 1);
    let k0 = choose|k0: int| 0 <= k0 < es.len() && #[trigger] es[k0] == sel;
    assert(es[k0].1 == es[i].1);
    if k0 == j {
        assert(lex_le(sel.0, es[i].0));
        lemma_lex_trichotomy(es[i].0, es[j].0);
        assert(false);
    }
}

} // verus!
