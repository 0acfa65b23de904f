//! The candidate-pair table: a key-ordered mapping from candidate merged
//! strings to occurrence counts.
//!
//! Entries are kept sorted in ascending lexicographic key order, so that the
//! selection step can iterate them deterministically.  `table_insert` is the
//! exact effect of recording one more occurrence of a candidate.

use vstd::prelude::*;

use crate::text::lemma_lex_lt_transitive;
use crate::text::lemma_lex_trichotomy;
use crate::text::lex_lt;
use crate::text::str_lex_lt;

verus! {

/// Keys strictly ascend in lexicographic order.
pub open spec fn entries_sorted(es: Seq<(Seq<char>, nat)>) -> bool {
    forall|i: int, j: int| 0 <= i < j < es.len() ==> lex_lt(es[i].0, es[j].0)
}

/// A well-formed table: sorted keys (hence unique) and positive counts.
pub open spec fn table_wf(es: Seq<(Seq<char>, nat)>) -> bool {
    entries_sorted(es) && forall|i: int| 0 <= i < es.len() ==> (#[trigger] es[i]).1 >= 1
}

/// The count stored for `key`: the sum over entries with that key, which for
/// a well-formed table is the single entry's count, or zero when absent.
pub open spec fn entry_count(es: Seq<(Seq<char>, nat)>, key: Seq<char>) -> nat
    decreases es.len(),
{
    if es.len() == 0 {
        0
    } else {
        (if es[0].0 == key {
            es[0].1
        } else {
            0 as nat
        }) + entry_count(es.skip(1), key)
    }
}

/// Recording one occurrence of `key`: an existing entry's count rises by one;
/// otherwise a fresh entry with count one is placed at its sorted position.
pub open spec fn table_insert(es: Seq<(Seq<char>, nat)>, key: Seq<char>) -> Seq<(Seq<char>, nat)>
    decreases es.len(),
{
    if es.len() == 0 {
        seq![(key, 1 as nat)]
    } else if lex_lt(key, es[0].0) {
        seq![(key, 1 as nat)] + es
    } else if es[0].0 == key {
        seq![(es[0].0, (es[0].1 + 1) as nat)] + es.skip(1)
    } else {
        seq![es[0]] + table_insert(es.skip(1), key)
    }
}

/// Unfolds `entry_count` over a table that starts with a known entry.
pub proof fn lemma_entry_count_cons(x: (Seq<char>, nat), rest: Seq<(Seq<char>, nat)>, k: Seq<char>)
    ensures
        entry_count(seq![x] + rest, k) == (if x.0 == k {
            x.1
        } else {
            0 as nat
        }) + entry_count(rest, k),
{
    assert((seq![x] + rest)[0] == x);
    assert((seq![x] + rest).skip(1) =~= rest);
}

/// `table_insert` raises the recorded count of `key` by one and leaves every
/// other count unchanged.
pub proof fn lemma_table_insert_count(es: Seq<(Seq<char>, nat)>, key: Seq<char>, k: Seq<char>)
    ensures
        entry_count(table_insert(es, key), k) == entry_count(es, k) + (if k == key {
            1 as nat
        } else {
            0 as nat
        }),
    decreases es.len(),
{
    if es.len() == 0 {
        lemma_entry_count_cons((key, 1 as nat), Seq::empty(), k);
        assert(seq![(key, 1 as nat)] + Seq::<(Seq<char>, nat)>::empty() =~= seq![
            (key, 1 as nat),
        ]);
    } else if lex_lt(key, es[0].0) {
        lemma_lex_trichotomy(key, es[0].0);
        lemma_entry_count_cons((key, 1 as nat), es, k);
    } else if es[0].0 == key {
        lemma_entry_count_cons((es[0].0, (es[0].1 + 1) as nat), es.skip(1), k);
        lemma_entry_count_cons(es[0], es.skip(1), k);
        assert(seq![es[0]] + es.skip(1) =~= es);
    } else {
        lemma_table_insert_count(es.skip(1), key, k);
        lemma_entry_count_cons(es[0], table_insert(es.skip(1), key), k);
        lemma_entry_count_cons(es[0], es.skip(1), k);
        assert(seq![es[0]] + es.skip(1) =~= es);
    }
}

/// Every key of `table_insert(es, key)` is `key` itself or a key of `es`, so
/// a strict lower bound on all of them and on `key` still holds afterwards.
proof fn lemma_table_insert_lower_bound(
    es: Seq<(Seq<char>, nat)>,
    key: Seq<char>,
    b: Seq<char>,
)
    requires
        lex_lt(b, key),
        forall|i: int| 0 <= i < es.len() ==> lex_lt(b, (#[trigger] es[i]).0),
    ensures
        forall|i: int|
            0 <= i < table_insert(es, key).len() ==> lex_lt(b, (#[trigger] table_insert(es, key)[i]).0),
    decreases es.len(),
{
    if es.len() == 0 {
    } else if lex_lt(key, es[0].0) {
    } else if es[0].0 == key {
    } else {
        lemma_table_insert_lower_bound(es.skip(1), key, b);
        let ti = table_insert(es.skip(1), key);
        assert forall|i: int| 0 <= i < table_insert(es, key).len() implies lex_lt(
            b,
            (#[trigger] table_insert(es, key)[i]).0,
        ) by {
            if i >= 1 {
                assert(table_insert(es, key)[i] == ti[i - 1]);
            }
        }
    }
}

/// `table_insert` keeps the table well formed.
pub proof fn lemma_table_insert_wf(es: Seq<(Seq<char>, nat)>, key: Seq<char>)
    requires
        table_wf(es),
    ensures
        table_wf(table_insert(es, key)),
    decreases es.len(),
{
    if es.len() == 0 {
    } else if lex_lt(key, es[0].0) {
        let r = seq![(key, 1 as nat)] + es;
        assert forall|i: int, j: int| 0 <= i < j < r.len() implies lex_lt(r[i].0, r[j].0) by {
            if i == 0 {
                if j >= 2 {
                    lemma_lex_lt_transitive(key, es[0].0, es[j - 1].0);
                }
            }
        }
    } else if es[0].0 == key {
        let r = seq![(es[0].0, (es[0].1 + 1) as nat)] + es.skip(1);
        assert forall|i: int| 0 <= i < r.len() implies r[i].0 == es[i].0 by {}
        assert forall|i: int, j: int| 0 <= i < j < r.len() implies lex_lt(r[i].0, r[j].0) by {
            assert(lex_lt(es[i].0, es[j].0));
        }
    } else {
        lemma_lex_trichotomy(key, es[0].0);
        assert(lex_lt(es[0].0, key));
        assert(table_wf(es.skip(1)));
        lemma_table_insert_wf(es.skip(1), key);
        let ti = table_insert(es.skip(1), key);
        lemma_table_insert_lower_bound(es.skip(1), key, es[0].0);
        let r = seq![es[0]] + ti;
        assert forall|i: int, j: int| 0 <= i < j < r.len() implies lex_lt(r[i].0, r[j].0) by {
            if i >= 1 {
                assert(r[i] == ti[i - 1] && r[j] == ti[j - 1]);
            } else {
                assert(r[j] == ti[j - 1]);
            }
        }
        assert forall|i: int| 0 <= i < r.len() implies (#[trigger] r[i]).1 >= 1 by {
            if i >= 1 {
                assert(r[i] == ti[i - 1]);
            }
        }
    }
}

/// A key that appears in no entry has count zero.
pub proof fn lemma_entry_count_absent(es: Seq<(Seq<char>, nat)>, k: Seq<char>)
    requires
        forall|i: int| 0 <= i < es.len() ==> (#[trigger] es[i]).0 != k,
    ensures
        entry_count(es, k) == 0,
    decreases es.len(),
{
    if es.len() == 0 {
    } else {
        lemma_entry_count_absent(es.skip(1), k);
    }
}

/// In a well-formed table, the count of a present key is that entry's count.
pub proof fn lemma_entry_count_member(es: Seq<(Seq<char>, nat)>, i: int)
    requires
        table_wf(es),
        0 <= i < es.len(),
    ensures
        entry_count(es, es[i].0) == es[i].1,
    decreases es.len(),
{
    let k = es[i].0;
    if i == 0 {
        assert forall|j: int| 0 <= j < es.skip(1).len() implies (#[trigger] es.skip(1)[j]).0
            != k by {
            assert(es.skip(1)[j] == es[j + 1]);
            lemma_lex_trichotomy(k, es[j + 1].0);
        }
        lemma_entry_count_absent(es.skip(1), k);
    } else {
        assert(lex_lt(es[0].0, k));
        lemma_lex_trichotomy(es[0].0, k);
        assert(table_wf(es.skip(1)));
        lemma_entry_count_member(es.skip(1), i - 1);
        assert(es.skip(1)[i - 1] == es[i]);
    }
}

/// A positive count names a present key.
pub proof fn lemma_entry_count_present(es: Seq<(Seq<char>, nat)>, k: Seq<char>)
    requires
        entry_count(es, k) >= 1,
    ensures
        exists|i: int| 0 <= i < es.len() && (#[trigger] es[i]).0 == k,
    decreases es.len(),
{
    if es.len() == 0 {
    } else if es[0].0 == k {
    } else {
        lemma_entry_count_present(es.skip(1), k);
        let i = choose|i: int| 0 <= i < es.skip(1).len() && (#[trigger] es.skip(1)[i]).0 == k;
        assert(es[i + 1].0 == k);
    }
}

/// The view of the table's entry vector, with counts as mathematical numbers.
pub open spec fn entries_view(es: Seq<(String, usize)>) -> Seq<(Seq<char>, nat)> {
    es.map_values(|e: (String, usize)| (e.0@, e.1 as nat))
}

/// A table of candidate merged strings and their occurrence counts, iterated
/// in ascending lexicographic key order.
pub struct CandidatePairTable {
    pub(crate) entries: Vec<(String, usize)>,
}

impl View for CandidatePairTable {
    type V = Seq<(Seq<char>, nat)>;

    closed spec fn view(&self) -> Seq<(Seq<char>, nat)> {
        entries_view(self.entries@)
    }
}

impl CandidatePairTable {
    pub fn new() -> (r: Self)
        ensures
            r@ == Seq::<(Seq<char>, nat)>::empty(),
    {
        let r = CandidatePairTable { entries: Vec::new() };
        proof {
            assert(r@ =~= Seq::<(Seq<char>, nat)>::empty());
        }
        r
    }

    /// Records one more occurrence of `key`.
    pub fn record_pair(&mut self, key: String)
        requires
            table_wf(old(self)@),
            entry_count(old(self)@, key@) < usize::MAX,
        ensures
            final(self)@ == table_insert(old(self)@, key@),
    {
        let ghost es = self@;
        let n = self.entries.len();
        let mut j: usize = 0;
        while j < n && str_lex_lt(&self.entries[j].0, &key)
            invariant
                n == self.entries.len(),
                self@ == es,
                table_wf(es),
                entry_count(es, key@) < usize::MAX,
                j <= n,
                forall|k: int| 0 <= k < j ==> lex_lt((#[trigger] es[k]).0, key@),
            decreases n - j,
        {
            j = j + 1;
        }
        proof {
            lemma_table_insert_prefix(es, key@, j as int);
        }
        if j < n && self.entries[j].0 == key {
            let c = self.entries[j].1;
            proof {
                assert(table_wf(es.skip(j as int))) by {
                    assert(forall|a: int|
                        0 <= a < es.skip(j as int).len() ==> #[trigger] es.skip(j as int)[a] == es[a
                            + j]);
                }
                lemma_entry_count_member(es, j as int);
                assert(c < usize::MAX);
            }
            let fresh_key = self.entries[j].0.clone();
            self.entries[j] = (fresh_key, c + 1);
            proof {
                assert(es.skip(j as int)[0] == es[j as int]);
                assert(seq![(es[j as int].0, (es[j as int].1 + 1) as nat)] + es.skip(j as int).skip(
                    1,
                ) == table_insert(es.skip(j as int), key@));
                assert(self@ =~= es.take(j as int) + table_insert(es.skip(j as int), key@));
            }
        } else {
            proof {
                if j < n {
                    lemma_lex_trichotomy(key@, es[j as int].0);
                    assert(es.skip(j as int)[0] == es[j as int]);
                    assert(lex_lt(key@, es.skip(j as int)[0].0));
                } else {
                    assert(es.skip(j as int).len() == 0);
                }
                assert(table_insert(es.skip(j as int), key@) =~= seq![(key@, 1 as nat)] + es.skip(
                    j as int,
                ));
            }
            self.entries.insert(j, (key, 1));
            proof {
                assert(self@ =~= es.take(j as int) + table_insert(es.skip(j as int), key@));
            }
        }
    }

    /// How many entries the table holds.
    pub fn num_entries(&self) -> (r: usize)
        ensures
            r == self@.len(),
    {
        self.entries.len()
    }

    /// The entry at position `i` in ascending key order.
    pub fn entry_at(&self, i: usize) -> (r: &(String, usize))
        requires
            i < self@.len(),
        ensures
            (r.0@, r.1 as nat) == self@[i as int],
    {
        &self.entries[i]
    }
}

/// If every key before position `j` is below `key`, inserting `key` leaves
/// the first `j` entries untouched.
pub proof fn lemma_table_insert_prefix(es: Seq<(Seq<char>, nat)>, key: Seq<char>, j: int)
    requires
        0 <= j <= es.len(),
        forall|k: int| 0 <= k < j ==> lex_lt((#[trigger] es[k]).0, key),
    ensures
        table_insert(es, key) == es.take(j) + table_insert(es.skip(j), key),
    decreases j,
{
    if j == 0 {
        assert(es.skip(0) =~= es);
        assert(es.take(0) + table_insert(es, key) =~= table_insert(es, key));
    } else {
        lemma_lex_trichotomy(key, es[0].0);
        lemma_table_insert_prefix(es.skip(1), key, j - 1);
        assert(forall|k: int| 0 <= k < j - 1 ==> es.skip(1)[k] == es[k + 1]);
        assert(es.skip(1).take(j - 1) =~= es.subrange(1, j));
        assert(es.skip(1).skip(j - 1) =~= es.skip(j));
        assert(seq![es[0]] + (es.subrange(1, j) + table_insert(es.skip(j), key)) =~= es.take(j)
            + table_insert(es.skip(j), key));
    }
}

} // verus!
