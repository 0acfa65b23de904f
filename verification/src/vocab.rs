//! The learned vocabulary: a mapping from token to its character length.
//!
//! The stored integer is deliberately the token's character length, not its
//! training frequency; segmentation later sorts by this stored length.  Keys
//! are unique and never empty, entries are kept in insertion order, and a
//! vocabulary only ever gains entries.

use vstd::prelude::*;
use vstd::string::StrSliceExecFns;

use crate::table::entries_view;

verus! {

/// Keys are unique and non-empty, and each stored value is its key's
/// character length.
pub open spec fn vocab_wf(es: Seq<(Seq<char>, nat)>) -> bool {
    &&& forall|i: int, j: int|
        0 <= i < j < es.len() ==> (#[trigger] es[i]).0 != (#[trigger] es[j]).0
    &&& forall|i: int|
        0 <= i < es.len() ==> (#[trigger] es[i]).0.len() >= 1 && es[i].1 == es[i].0.len()
}

/// Whether `k` is a key of the vocabulary.
pub open spec fn vocab_contains(es: Seq<(Seq<char>, nat)>, k: Seq<char>) -> bool {
    exists|i: int| 0 <= i < es.len() && (#[trigger] es[i]).0 == k
}

/// Inserting a token: a present key leaves the vocabulary unchanged; a new
/// key is appended with its character length as value.
pub open spec fn vocab_insert_spec(es: Seq<(Seq<char>, nat)>, k: Seq<char>) -> Seq<
    (Seq<char>, nat),
> {
    if vocab_contains(es, k) {
        es
    } else {
        es.push((k, k.len()))
    }
}

/// Inserting never removes or changes an entry: every existing entry keeps
/// its position and value, and at most the one new key is appended.
pub proof fn lemma_vocab_insert_monotonic(es: Seq<(Seq<char>, nat)>, k: Seq<char>)
    ensures
        es.len() <= vocab_insert_spec(es, k).len() <= es.len() + 1,
        forall|i: int| 0 <= i < es.len() ==> vocab_insert_spec(es, k)[i] == #[trigger] es[i],
        vocab_contains(vocab_insert_spec(es, k), k),
        forall|j: Seq<char>| vocab_contains(es, j) ==> vocab_contains(vocab_insert_spec(es, k), j),
{
    let r = vocab_insert_spec(es, k);
    if !vocab_contains(es, k) {
        assert(r[es.len() as int].0 == k);
    }
    assert forall|j: Seq<char>| vocab_contains(es, j) implies vocab_contains(r, j) by {
        let i = choose|i: int| 0 <= i < es.len() && (#[trigger] es[i]).0 == j;
        assert(r[i].0 == j);
    }
}

/// The failure of loading a stored vocabulary.
#[derive(Debug, PartialEq, Eq, Structural)]
pub enum VocabularyError {
    /// The stored entries do not form a vocabulary: a key is empty or
    /// repeated, or a value is not its key's character length.
    MalformedVocabularyData,
}

/// A mapping from learned token to its character length, in insertion order.
#[derive(Debug)]
pub struct Vocabulary {
    pub(crate) entries: Vec<(String, usize)>,
}

impl View for Vocabulary {
    type V = Seq<(Seq<char>, nat)>;

    closed spec fn view(&self) -> Seq<(Seq<char>, nat)> {
        entries_view(self.entries@)
    }
}

impl Vocabulary {
    pub fn new() -> (r: Self)
        ensures
            r@ == Seq::<(Seq<char>, nat)>::empty(),
            vocab_wf(r@),
    {
        let r = Vocabulary { entries: Vec::new() };
        proof {
            assert(r@ =~= Seq::<(Seq<char>, nat)>::empty());
        }
        r
    }

    /// How many tokens the vocabulary holds.
    pub fn len(&self) -> (r: usize)
        ensures
            r == self@.len(),
    {
        self.entries.len()
    }

    /// The entry at position `i` in insertion order.
    pub fn entry_at(&self, i: usize) -> (r: &(String, usize))
        requires
            i < self@.len(),
        ensures
            (r.0@, r.1 as nat) == self@[i as int],
    {
        &self.entries[i]
    }

    /// Whether `tok` is already a vocabulary key.
    pub fn contains_token(&self, tok: &String) -> (r: bool)
        ensures
            r == vocab_contains(self@, tok@),
    {
        let n = self.entries.len();
        let mut i: usize = 0;
        while i < n
            invariant
                i <= n,
                n == self@.len(),
                forall|k: int| 0 <= k < i ==> (#[trigger] self@[k]).0 != tok@,
            decreases n - i,
        {
            if self.entries[i].0 == *tok {
                proof {
                    assert(self@[i as int].0 == tok@);
                }
                return true;
            }
            i = i + 1;
        }
        false
    }

    /// Records `tok` with its character length as value; a token already
    /// present leaves the vocabulary unchanged.
    pub fn insert_token(&mut self, tok: String)
        requires
            vocab_wf(old(self)@),
            tok@.len() >= 1,
        ensures
            final(self)@ == vocab_insert_spec(old(self)@, tok@),
            vocab_wf(final(self)@),
    {
        let ghost es = self@;
        if !self.contains_token(&tok) {
            let value = tok.as_str().unicode_len();
            let ghost entry = (tok@, tok@.len());
            self.entries.push((tok, value));
            proof {
                assert(self@ =~= es.push(entry));
                assert forall|i: int, j: int|
                    0 <= i < j < self@.len() implies (#[trigger] self@[i]).0 != (
                #[trigger] self@[j]).0 by {
                    if j == self@.len() - 1 {
                        assert(!vocab_contains(es, entry.0));
                        assert(es[i].0 != entry.0);
                    }
                }
            }
        }
    }

    /// Validates raw entries as a vocabulary: keys must be unique and
    /// non-empty, each value its key's character length.  A loaded mapping
    /// that fails these checks is rejected as malformed.
    pub fn from_entries(entries: Vec<(String, usize)>) -> (r: Result<Vocabulary, VocabularyError>)
        ensures
            match r {
                Ok(v) => v@ == entries_view(entries@) && vocab_wf(v@),
                Err(e) => e == VocabularyError::MalformedVocabularyData && !vocab_wf(
                    entries_view(entries@),
                ),
            },
    {
        let ghost es = entries_view(entries@);
        let n = entries.len();
        let mut i: usize = 0;
        while i < n
            invariant
                i <= n,
                n == es.len(),
                es == entries_view(entries@),
                forall|k: int|
                    0 <= k < i ==> (#[trigger] es[k]).0.len() >= 1 && es[k].1 == es[k].0.len(),
                forall|a: int, b: int|
                    0 <= a < b < i ==> (#[trigger] es[a]).0 != (#[trigger] es[b]).0,
            decreases n - i,
        {
            let key_len = entries[i].0.as_str().unicode_len();
            proof {
                assert(es[i as int] == (entries@[i as int].0@, entries@[i as int].1 as nat));
            }
            if key_len == 0 || entries[i].1 != key_len {
                return Err(VocabularyError::MalformedVocabularyData);
            }
            let mut j: usize = 0;
            while j < i
                invariant
                    j <= i < n,
                    n == es.len(),
                    es == entries_view(entries@),
                    forall|a: int| 0 <= a < j ==> (#[trigger] es[a]).0 != es[i as int].0,
                decreases i - j,
            {
                if entries[j].0 == entries[i].0 {
                    proof {
                        assert(es[j as int].0 == es[i as int].0);
                    }
                    return Err(VocabularyError::MalformedVocabularyData);
                }
                j = j + 1;
            }
            i = i + 1;
        }
        Ok(Vocabulary { entries })
    }
}

} // verus!
