//! Greedy segmentation of a string against a learned vocabulary.
//!
//! Vocabulary entries are applied in priority order: largest stored length
//! first and, among equal lengths, lexicographically smallest key first.  A
//! working sequence of units carries a finalized flag; each pass splits every
//! not-yet-finalized unit on the current token, finalizing the pieces that
//! equal it.  Finalized units are never re-split, and the whole working
//! sequence is rebuilt each pass rather than spliced in place.

use vstd::prelude::*;
use vstd::string::StrSliceExecFns;
use vstd::string::StringExecFns;

use crate::split::lemma_flatten_cons;
use crate::split::lemma_split_concat;
use crate::split::lemma_split_pieces_nonempty;
use crate::split::split_spec;
use crate::split::split_with_separators;
use crate::table::entries_view;
use crate::text::lemma_lex_trichotomy;
use crate::text::lex_lt;
use crate::text::str_lex_lt;
use crate::text::substring_copy;
use crate::text::tokens_view;
use crate::vocab::vocab_wf;
use crate::vocab::Vocabulary;

verus! {

/// Whether entry `a` is applied before entry `b`: larger stored length first,
/// then lexicographically smaller key first.
pub open spec fn prio_before(a: (Seq<char>, nat), b: (Seq<char>, nat)) -> bool {
    a.1 > b.1 || (a.1 == b.1 && lex_lt(a.0, b.0))
}

/// Insertion of one entry into a priority-sorted run.
pub open spec fn prio_insert(x: (Seq<char>, nat), es: Seq<(Seq<char>, nat)>) -> Seq<
    (Seq<char>, nat),
>
    decreases es.len(),
{
    if es.len() == 0 {
        seq![x]
    } else if prio_before(x, es[0]) {
        seq![x] + es
    } else {
        seq![es[0]] + prio_insert(x, es.skip(1))
    }
}

/// The priority order of the vocabulary's entries.
pub open spec fn prio_sort(es: Seq<(Seq<char>, nat)>) -> Seq<(Seq<char>, nat)>
    decreases es.len(),
{
    if es.len() == 0 {
        es
    } else {
        prio_insert(es[0], prio_sort(es.skip(1)))
    }
}

/// Every entry of `prio_insert(x, es)` is `x` or an entry of `es`.
pub proof fn lemma_prio_insert_elems(x: (Seq<char>, nat), es: Seq<(Seq<char>, nat)>)
    ensures
        forall|j: int|
            0 <= j < prio_insert(x, es).len() ==> #[trigger] prio_insert(x, es)[j] == x || exists|
                i: int,
            | 0 <= i < es.len() && prio_insert(x, es)[j] == es[i],
    decreases es.len(),
{
    if es.len() == 0 {
    } else if prio_before(x, es[0]) {
        assert forall|j: int| 0 <= j < prio_insert(x, es).len() implies #[trigger] prio_insert(
            x,
            es,
        )[j] == x || exists|i: int| 0 <= i < es.len() && prio_insert(x, es)[j] == es[i] by {
            if j >= 1 {
                assert(prio_insert(x, es)[j] == es[j - 1]);
            }
        }
    } else {
        lemma_prio_insert_elems(x, es.skip(1));
        let r = prio_insert(x, es);
        let rest = prio_insert(x, es.skip(1));
        assert forall|j: int| 0 <= j < r.len() implies #[trigger] r[j] == x || exists|i: int|
            0 <= i < es.len() && r[j] == es[i] by {
            if j >= 1 {
                assert(r[j] == rest[j - 1]);
                if rest[j - 1] != x {
                    let i = choose|i: int| 0 <= i < es.skip(1).len() && rest[j - 1] == es.skip(1)[i];
                    assert(r[j] == es[i + 1]);
                }
            }
        }
    }
}

/// Every entry of the priority order is an entry of the vocabulary.
pub proof fn lemma_prio_sort_elems(es: Seq<(Seq<char>, nat)>)
    ensures
        forall|j: int|
            0 <= j < prio_sort(es).len() ==> exists|i: int|
                0 <= i < es.len() && #[trigger] prio_sort(es)[j] == es[i],
    decreases es.len(),
{
    if es.len() == 0 {
    } else {
        lemma_prio_sort_elems(es.skip(1));
        lemma_prio_insert_elems(es[0], prio_sort(es.skip(1)));
        let r = prio_sort(es);
        assert forall|j: int| 0 <= j < r.len() implies exists|i: int|
            0 <= i < es.len() && #[trigger] r[j] == es[i] by {
            if r[j] == es[0] {
            } else {
                let k = choose|k: int|
                    0 <= k < prio_sort(es.skip(1)).len() && r[j] == #[trigger] prio_sort(
                        es.skip(1),
                    )[k];
                let i = choose|i: int|
                    0 <= i < es.skip(1).len() && #[trigger] prio_sort(es.skip(1))[k] == es.skip(
                        1,
                    )[i];
                assert(r[j] == es[i + 1]);
            }
        }
    }
}

/// Priority is asymmetric, and an entry that outranks `b` outranks
/// everything `b` outranks or matches.
proof fn lemma_prio_before_order(a: (Seq<char>, nat), b: (Seq<char>, nat), c: (Seq<char>, nat))
    requires
        prio_before(a, b),
        !prio_before(c, b),
    ensures
        prio_before(a, c),
{
    lemma_lex_trichotomy(a.0, b.0);
    lemma_lex_trichotomy(b.0, c.0);
    lemma_lex_trichotomy(a.0, c.0);
    if a.1 == b.1 && b.1 == c.1 && lex_lt(a.0, b.0) && lex_lt(b.0, c.0) {
        crate::text::lemma_lex_lt_transitive(a.0, b.0, c.0);
    }
}

/// Priority is asymmetric.
proof fn lemma_prio_asym(a: (Seq<char>, nat), b: (Seq<char>, nat))
    requires
        prio_before(a, b),
    ensures
        !prio_before(b, a),
{
    lemma_lex_trichotomy(a.0, b.0);
}

/// No later entry of `prio_insert(x, es)` outranks an earlier one, provided
/// that already held of `es`.
proof fn lemma_prio_insert_sorted(x: (Seq<char>, nat), es: Seq<(Seq<char>, nat)>)
    requires
        forall|i: int, j: int|
            0 <= i < j < es.len() ==> !prio_before(#[trigger] es[j], #[trigger] es[i]),
    ensures
        forall|i: int, j: int|
            0 <= i < j < prio_insert(x, es).len() ==> !prio_before(
                #[trigger] prio_insert(x, es)[j],
                #[trigger] prio_insert(x, es)[i],
            ),
    decreases es.len(),
{
    if es.len() == 0 {
    } else if prio_before(x, es[0]) {
        let r = prio_insert(x, es);
        assert forall|i: int, j: int| 0 <= i < j < r.len() implies !prio_before(
            #[trigger] r[j],
            #[trigger] r[i],
        ) by {
            assert(r[j] == es[j - 1]);
            if i == 0 {
                // Nothing outranks `x` here: entry `j - 1` of `es` does not
                // outrank the head, which `x` outranks.
                if j >= 2 {
                    lemma_prio_before_order(x, es[0], es[j - 1]);
                    lemma_prio_asym(x, es[j - 1]);
                } else {
                    lemma_prio_asym(x, es[0]);
                }
            } else {
                assert(r[i] == es[i - 1]);
            }
        }
    } else {
        lemma_prio_insert_sorted(x, es.skip(1));
        let r = prio_insert(x, es);
        let rest = prio_insert(x, es.skip(1));
        lemma_prio_insert_elems(x, es.skip(1));
        assert forall|i: int, j: int| 0 <= i < j < r.len() implies !prio_before(
            #[trigger] r[j],
            #[trigger] r[i],
        ) by {
            assert(r[j] == rest[j - 1]);
            if i >= 1 {
                assert(r[i] == rest[i - 1]);
            } else {
                // The head of `es` does not rank below `x`, nor below any
                // later entry of `es`, and every entry of the inserted run
                // is one of those.
                if rest[j - 1] == x {
                } else {
                    let k = choose|k: int|
                        0 <= k < es.skip(1).len() && rest[j - 1] == es.skip(1)[k];
                    assert(es.skip(1)[k] == es[k + 1]);
                    assert(!prio_before(es[k + 1], es[0]));
                }
            }
        }
    }
}

/// The priority order is sorted: no later entry is applied with higher
/// priority than an earlier one.
pub proof fn lemma_prio_sort_sorted(es: Seq<(Seq<char>, nat)>)
    ensures
        forall|i: int, j: int|
            0 <= i < j < prio_sort(es).len() ==> !prio_before(
                #[trigger] prio_sort(es)[j],
                #[trigger] prio_sort(es)[i],
            ),
    decreases es.len(),
{
    if es.len() == 0 {
    } else {
        lemma_prio_sort_sorted(es.skip(1));
        lemma_prio_insert_sorted(es[0], prio_sort(es.skip(1)));
    }
}

/// If `x` belongs after the first `j` entries and before entry `j`, the
/// insertion places it exactly there.
proof fn lemma_prio_insert_at(x: (Seq<char>, nat), es: Seq<(Seq<char>, nat)>, j: int)
    requires
        0 <= j <= es.len(),
        forall|k: int| 0 <= k < j ==> !prio_before(x, #[trigger] es[k]),
        j < es.len() ==> prio_before(x, es[j]),
    ensures
        prio_insert(x, es) == es.take(j) + seq![x] + es.skip(j),
    decreases j,
{
    if j == 0 {
        if es.len() == 0 {
            assert(es.take(0) + seq![x] + es.skip(0) =~= seq![x]);
        } else {
            assert(es.take(0) + seq![x] + es.skip(0) =~= seq![x] + es);
        }
    } else {
        lemma_prio_insert_at(x, es.skip(1), j - 1);
        assert(forall|k: int| 0 <= k < j - 1 ==> es.skip(1)[k] == es[k + 1]);
        assert(es.skip(1).take(j - 1) =~= es.subrange(1, j));
        assert(es.skip(1).skip(j - 1) =~= es.skip(j));
        assert(seq![es[0]] + (es.subrange(1, j) + seq![x] + es.skip(j)) =~= es.take(j) + seq![x]
            + es.skip(j));
    }
}

/// Computes the priority order of the vocabulary's entries: stored length
/// descending, key ascending among equal lengths.
pub fn sort_by_priority(vocabulary: &Vocabulary) -> (r: Vec<(String, usize)>)
    ensures
        entries_view(r@) == prio_sort(vocabulary@),
{
    let n = vocabulary.len();
    let mut out: Vec<(String, usize)> = Vec::new();
    let mut i: usize = n;
    proof {
        assert(vocabulary@.skip(n as int) =~= Seq::<(Seq<char>, nat)>::empty());
        assert(entries_view(out@) =~= prio_sort(vocabulary@.skip(n as int)));
    }
    while i > 0
        invariant
            i <= n,
            n == vocabulary@.len(),
            entries_view(out@) == prio_sort(vocabulary@.skip(i as int)),
        decreases i,
    {
        i = i - 1;
        let entry = vocabulary.entry_at(i);
        let key = entry.0.clone();
        let value = entry.1;
        let ghost x = (key@, value as nat);
        let ghost es = entries_view(out@);
        let m = out.len();
        let mut j: usize = 0;
        while j < m && !prio_compare(&key, value, &out[j].0, out[j].1)
            invariant
                j <= m,
                m == out.len(),
                es == entries_view(out@),
                x == (key@, value as nat),
                forall|k: int| 0 <= k < j ==> !prio_before(x, #[trigger] es[k]),
            decreases m - j,
        {
            j = j + 1;
        }
        proof {
            lemma_prio_insert_at(x, es, j as int);
        }
        out.insert(j, (key, value));
        proof {
            assert(entries_view(out@) =~= es.take(j as int) + seq![x] + es.skip(j as int));
            assert(vocabulary@.skip(i as int)[0] == vocabulary@[i as int]);
            assert(vocabulary@.skip(i as int).skip(1) =~= vocabulary@.skip(i + 1));
            assert(prio_sort(vocabulary@.skip(i as int)) == prio_insert(
                vocabulary@[i as int],
                prio_sort(vocabulary@.skip(i + 1)),
            ));
        }
    }
    proof {
        assert(vocabulary@.skip(0) =~= vocabulary@);
    }
    out
}

/// Whether the entry `(a, av)` is applied before `(b, bv)`.
fn prio_compare(a: &String, av: usize, b: &String, bv: usize) -> (r: bool)
    ensures
        r == prio_before((a@, av as nat), (b@, bv as nat)),
{
    if av > bv {
        true
    } else if av == bv {
        str_lex_lt(a, b)
    } else {
        false
    }
}

/// The view of a working sequence of segmentation units.
pub open spec fn unit_views(us: Seq<(String, bool)>) -> Seq<(Seq<char>, bool)> {
    us.map_values(|u: (String, bool)| (u.0@, u.1))
}

/// One pass over a single unit: a finalized unit stays; any other unit is
/// split on `tok`, and each resulting piece equal to `tok` is finalized.
pub open spec fn expand_unit(u: (Seq<char>, bool), tok: Seq<char>) -> Seq<(Seq<char>, bool)> {
    if u.1 {
        seq![u]
    } else {
        split_spec(u.0, tok).map_values(|p: Seq<char>| (p, p == tok))
    }
}

/// One pass over the whole working sequence.
pub open spec fn apply_token(us: Seq<(Seq<char>, bool)>, tok: Seq<char>) -> Seq<(Seq<char>, bool)>
    decreases us.len(),
{
    if us.len() == 0 {
        Seq::empty()
    } else {
        expand_unit(us[0], tok) + apply_token(us.skip(1), tok)
    }
}

/// All passes, one per token in priority order.
pub open spec fn apply_tokens(us: Seq<(Seq<char>, bool)>, toks: Seq<Seq<char>>) -> Seq<
    (Seq<char>, bool),
>
    decreases toks.len(),
{
    if toks.len() == 0 {
        us
    } else {
        apply_tokens(apply_token(us, toks[0]), toks.skip(1))
    }
}

/// The keys of a run of entries, in order.
pub open spec fn keys_of(es: Seq<(Seq<char>, nat)>) -> Seq<Seq<char>> {
    es.map_values(|e: (Seq<char>, nat)| e.0)
}

/// The initial working sequence: one unfinalized unit holding the whole
/// input, or nothing for empty input, so that no empty unit is ever emitted.
pub open spec fn initial_units(text: Seq<char>) -> Seq<(Seq<char>, bool)> {
    if text.len() == 0 {
        Seq::empty()
    } else {
        seq![(text, false)]
    }
}

/// The texts of a working sequence, in order.
pub open spec fn unit_texts(us: Seq<(Seq<char>, bool)>) -> Seq<Seq<char>> {
    us.map_values(|u: (Seq<char>, bool)| u.0)
}

/// The segmentation of `text` against a vocabulary: all passes in priority
/// order, then the units' texts in order, the finalized flags discarded.
pub open spec fn segment_spec(text: Seq<char>, vocab: Seq<(Seq<char>, nat)>) -> Seq<Seq<char>> {
    unit_texts(apply_tokens(initial_units(text), keys_of(prio_sort(vocab))))
}

/// A pass distributes over concatenation of working sequences.
pub proof fn lemma_apply_token_push(us: Seq<(Seq<char>, bool)>, u: (Seq<char>, bool), tok: Seq<char>)
    ensures
        apply_token(us.push(u), tok) == apply_token(us, tok) + expand_unit(u, tok),
    decreases us.len(),
{
    if us.len() == 0 {
        assert(us.push(u)[0] == u);
        assert(us.push(u).skip(1) =~= us);
        assert(apply_token(us.push(u), tok) == expand_unit(u, tok) + apply_token(us, tok));
        assert(expand_unit(u, tok) + apply_token(us, tok) =~= apply_token(us, tok) + expand_unit(
            u,
            tok,
        ));
    } else {
        lemma_apply_token_push(us.skip(1), u, tok);
        assert(us.push(u).skip(1) =~= us.skip(1).push(u));
        assert(us.push(u)[0] == us[0]);
        assert(expand_unit(us[0], tok) + (apply_token(us.skip(1), tok) + expand_unit(u, tok))
            =~= (expand_unit(us[0], tok) + apply_token(us.skip(1), tok)) + expand_unit(u, tok));
    }
}

/// Passes compose one token at a time.
pub proof fn lemma_apply_tokens_snoc(
    us: Seq<(Seq<char>, bool)>,
    toks: Seq<Seq<char>>,
    t: Seq<char>,
)
    ensures
        apply_tokens(us, toks.push(t)) == apply_token(apply_tokens(us, toks), t),
    decreases toks.len(),
{
    if toks.len() == 0 {
        assert(toks.push(t)[0] == t);
        assert(toks.push(t).skip(1) =~= toks);
        assert(apply_tokens(us, toks.push(t)) == apply_tokens(apply_token(us, t), toks));
        assert(apply_tokens(apply_token(us, t), toks) == apply_token(us, t));
        assert(apply_tokens(us, toks) == us);
    } else {
        lemma_apply_tokens_snoc(apply_token(us, toks[0]), toks.skip(1), t);
        assert(toks.push(t)[0] == toks[0]);
        assert(toks.push(t).skip(1) =~= toks.skip(1).push(t));
        assert(apply_tokens(us, toks.push(t)) == apply_tokens(
            apply_token(us, toks[0]),
            toks.skip(1).push(t),
        ));
        assert(apply_tokens(us, toks) == apply_tokens(apply_token(us, toks[0]), toks.skip(1)));
    }
}

/// `unit_views` distributes over `push`.
pub proof fn lemma_unit_views_push(us: Seq<(String, bool)>, u: (String, bool))
    ensures
        unit_views(us.push(u)) =~= unit_views(us).push((u.0@, u.1)),
{
}

/// Segments `word` into tokens of the vocabulary by greedy, largest-length
/// first matching; spans that no vocabulary token matches stay as single
/// unknown tokens.
pub fn tokenize(word: &str, vocabulary: &Vocabulary) -> (r: Vec<String>)
    requires
        vocab_wf(vocabulary@),
    ensures
        tokens_view(r@) == segment_spec(word@, vocabulary@),
{
    let sorted = sort_by_priority(vocabulary);
    let ghost toks = keys_of(prio_sort(vocabulary@));
    let mut units: Vec<(String, bool)> = Vec::new();
    if word.unicode_len() > 0 {
        units.push((String::from_str(word), false));
    }
    proof {
        assert(unit_views(units@) =~= initial_units(word@));
        assert(toks.take(0) =~= Seq::<Seq<char>>::empty());
    }
    let n = sorted.len();
    let mut ti: usize = 0;
    while ti < n
        invariant
            ti <= n,
            n == sorted.len(),
            entries_view(sorted@) == prio_sort(vocabulary@),
            toks == keys_of(prio_sort(vocabulary@)),
            toks.len() == n,
            vocab_wf(vocabulary@),
            unit_views(units@) == apply_tokens(initial_units(word@), toks.take(ti as int)),
        decreases n - ti,
    {
        let ghost tok_view = toks[ti as int];
        proof {
            assert(entries_view(sorted@)[ti as int] == (sorted@[ti as int].0@, sorted@[ti as int].1
                as nat));
            assert(tok_view == sorted@[ti as int].0@);
            // Priority entries come from the vocabulary, whose keys are
            // non-empty.
            lemma_prio_sort_elems(vocabulary@);
            assert(prio_sort(vocabulary@)[ti as int] == entries_view(sorted@)[ti as int]);
            let i = choose|i: int|
                0 <= i < vocabulary@.len() && #[trigger] prio_sort(vocabulary@)[ti as int]
                    == vocabulary@[i];
            assert(tok_view.len() >= 1);
        }
        let mut new_units: Vec<(String, bool)> = Vec::new();
        let m = units.len();
        let ghost old_views = unit_views(units@);
        let mut ui: usize = 0;
        proof {
            assert(old_views.take(0) =~= Seq::<(Seq<char>, bool)>::empty());
            assert(unit_views(new_units@) =~= apply_token(old_views.take(0), tok_view));
        }
        while ui < m
            invariant
                ui <= m,
                m == units.len(),
                ti < n,
                n == sorted.len(),
                old_views == unit_views(units@),
                tok_view == sorted@[ti as int].0@,
                tok_view.len() >= 1,
                unit_views(new_units@) == apply_token(old_views.take(ui as int), tok_view),
            decreases m - ui,
        {
            let ghost u_view = old_views[ui as int];
            proof {
                assert(u_view == (units@[ui as int].0@, units@[ui as int].1));
                assert(old_views.take(ui + 1) =~= old_views.take(ui as int).push(u_view));
                lemma_apply_token_push(old_views.take(ui as int), u_view, tok_view);
            }
            let ghost base = unit_views(new_units@);
            if units[ui].1 {
                let kept = units[ui].0.clone();
                let ghost before = new_units@;
                new_units.push((kept, true));
                proof {
                    lemma_unit_views_push(before, (kept, true));
                    assert(u_view == (kept@, true));
                    assert(expand_unit(u_view, tok_view) =~= seq![u_view]);
                    assert(unit_views(new_units@) =~= base + expand_unit(u_view, tok_view));
                }
            } else {
                let separator = sorted[ti].0.clone();
                let pieces = split_with_separators(units[ui].0.as_str(), separator);
                let ghost pview = split_spec(u_view.0, tok_view);
                let ghost mapped = pview.map_values(|p: Seq<char>| (p, p == tok_view));
                let pn = pieces.len();
                let mut pi: usize = 0;
                proof {
                    assert(tokens_view(pieces@) == pview);
                    assert(pview.len() == pieces@.len());
                    assert(mapped.take(0) =~= Seq::<(Seq<char>, bool)>::empty());
                    assert(base + mapped.take(0) =~= base);
                }
                while pi < pn
                    invariant
                        pi <= pn,
                        pn == pieces.len(),
                        ti < n,
                        n == sorted.len(),
                        tok_view == sorted@[ti as int].0@,
                        tokens_view(pieces@) == pview,
                        mapped == pview.map_values(|p: Seq<char>| (p, p == tok_view)),
                        unit_views(new_units@) == base + mapped.take(pi as int),
                    decreases pn - pi,
                {
                    let piece = pieces[pi].clone();
                    let finalized = piece == sorted[ti].0;
                    let ghost before = new_units@;
                    new_units.push((piece, finalized));
                    proof {
                        lemma_unit_views_push(before, (piece, finalized));
                        assert(pview[pi as int] == pieces@[pi as int]@);
                        assert(mapped[pi as int] == (pview[pi as int], pview[pi as int]
                            == tok_view));
                        assert(mapped.take(pi + 1) =~= mapped.take(pi as int).push(
                            mapped[pi as int],
                        ));
                        assert(unit_views(new_units@) =~= base + mapped.take(pi + 1));
                    }
                    pi = pi + 1;
                }
                proof {
                    assert(mapped.take(pn as int) =~= mapped);
                    assert(unit_views(new_units@) =~= base + expand_unit(u_view, tok_view));
                }
            }
            ui = ui + 1;
        }
        units = new_units;
        proof {
            assert(old_views.take(m as int) =~= old_views);
            assert(toks.take(ti + 1) =~= toks.take(ti as int).push(tok_view));
            lemma_apply_tokens_snoc(initial_units(word@), toks.take(ti as int), tok_view);
        }
        ti = ti + 1;
    }
    let mut out: Vec<String> = Vec::new();
    let final_count = units.len();
    let ghost final_views = unit_views(units@);
    let mut oi: usize = 0;
    proof {
        assert(toks.take(n as int) =~= toks);
        assert(tokens_view(out@) =~= unit_texts(final_views).take(0));
    }
    while oi < final_count
        invariant
            oi <= final_count,
            final_count == units.len(),
            final_views == unit_views(units@),
            tokens_view(out@) == unit_texts(final_views).take(oi as int),
        decreases final_count - oi,
    {
        let ghost before = out@;
        let text = units[oi].0.clone();
        out.push(text);
        proof {
            crate::split::lemma_tokens_view_push(before, text);
            let flat = unit_texts(final_views);
            assert(flat[oi as int] == final_views[oi as int].0);
            assert(final_views[oi as int] == (units@[oi as int].0@, units@[oi as int].1));
            assert(flat.take(oi + 1) =~= flat.take(oi as int).push(flat[oi as int]));
            assert(tokens_view(out@) =~= flat.take(oi + 1));
        }
        oi = oi + 1;
    }
    proof {
        assert(unit_texts(final_views).take(final_count as int) =~= unit_texts(final_views));
        assert(tokens_view(out@) =~= segment_spec(word@, vocabulary@));
    }
    out
}

/// One pass over one unit preserves its text.
proof fn lemma_expand_unit_content(u: (Seq<char>, bool), tok: Seq<char>)
    requires
        tok.len() >= 1,
    ensures
        unit_texts(expand_unit(u, tok)).flatten() == u.0,
{
    if u.1 {
        assert(unit_texts(seq![u]) =~= seq![u.0] + Seq::<Seq<char>>::empty());
        lemma_flatten_cons(u.0, Seq::empty());
        assert(u.0 + Seq::<Seq<char>>::empty().flatten() =~= u.0);
    } else {
        assert(unit_texts(expand_unit(u, tok)) =~= split_spec(u.0, tok));
        lemma_split_concat(u.0, tok);
    }
}

/// One pass over the working sequence preserves the concatenated text.
proof fn lemma_apply_token_content(us: Seq<(Seq<char>, bool)>, tok: Seq<char>)
    requires
        tok.len() >= 1,
    ensures
        unit_texts(apply_token(us, tok)).flatten() == unit_texts(us).flatten(),
    decreases us.len(),
{
    if us.len() == 0 {
        assert(unit_texts(apply_token(us, tok)) =~= unit_texts(us));
    } else {
        lemma_apply_token_content(us.skip(1), tok);
        lemma_expand_unit_content(us[0], tok);
        let front = expand_unit(us[0], tok);
        let rest = apply_token(us.skip(1), tok);
        assert(unit_texts(front + rest) =~= unit_texts(front) + unit_texts(rest));
        vstd::seq_lib::lemma_flatten_concat(unit_texts(front), unit_texts(rest));
        assert(unit_texts(us) =~= seq![us[0].0] + unit_texts(us.skip(1)));
        lemma_flatten_cons(us[0].0, unit_texts(us.skip(1)));
    }
}

/// All passes preserve the concatenated text.
proof fn lemma_apply_tokens_content(us: Seq<(Seq<char>, bool)>, toks: Seq<Seq<char>>)
    requires
        forall|i: int| 0 <= i < toks.len() ==> (#[trigger] toks[i]).len() >= 1,
    ensures
        unit_texts(apply_tokens(us, toks)).flatten() == unit_texts(us).flatten(),
    decreases toks.len(),
{
    if toks.len() == 0 {
    } else {
        lemma_apply_token_content(us, toks[0]);
        assert(forall|i: int|
            0 <= i < toks.skip(1).len() ==> #[trigger] toks.skip(1)[i] == toks[i + 1]);
        lemma_apply_tokens_content(apply_token(us, toks[0]), toks.skip(1));
    }
}

/// Round trip: for every input and every vocabulary of non-empty tokens,
/// concatenating the segmentation reproduces the input exactly.
pub proof fn lemma_segment_round_trip(text: Seq<char>, vocab: Seq<(Seq<char>, nat)>)
    requires
        forall|i: int| 0 <= i < vocab.len() ==> (#[trigger] vocab[i]).0.len() >= 1,
    ensures
        segment_spec(text, vocab).flatten() == text,
{
    let toks = keys_of(prio_sort(vocab));
    lemma_prio_sort_elems(vocab);
    assert forall|i: int| 0 <= i < toks.len() implies (#[trigger] toks[i]).len() >= 1 by {
        assert(toks[i] == prio_sort(vocab)[i].0);
        let j = choose|j: int|
            0 <= j < vocab.len() && #[trigger] prio_sort(vocab)[i] == vocab[j];
    }
    let init = initial_units(text);
    lemma_apply_tokens_content(init, toks);
    assert(segment_spec(text, vocab) == unit_texts(apply_tokens(init, toks)));
    if text.len() == 0 {
        assert(unit_texts(init).flatten() =~= text);
    } else {
        assert(unit_texts(init) =~= seq![text] + Seq::<Seq<char>>::empty());
        lemma_flatten_cons(text, Seq::empty());
        assert(text + Seq::<Seq<char>>::empty().flatten() =~= text);
    }
}

/// No empty token is ever emitted: every piece of a segmentation holds at
/// least one character.
pub proof fn lemma_segment_no_empty_tokens(text: Seq<char>, vocab: Seq<(Seq<char>, nat)>)
    requires
        forall|i: int| 0 <= i < vocab.len() ==> (#[trigger] vocab[i]).0.len() >= 1,
    ensures
        forall|i: int|
            0 <= i < segment_spec(text, vocab).len() ==> (#[trigger] segment_spec(text, vocab)[i]).len()
                >= 1,
{
    let toks = keys_of(prio_sort(vocab));
    lemma_prio_sort_elems(vocab);
    assert forall|i: int| 0 <= i < toks.len() implies (#[trigger] toks[i]).len() >= 1 by {
        assert(toks[i] == prio_sort(vocab)[i].0);
        let j = choose|j: int|
            0 <= j < vocab.len() && #[trigger] prio_sort(vocab)[i] == vocab[j];
    }
    let init = initial_units(text);
    lemma_apply_tokens_nonempty(init, toks);
    let us = apply_tokens(init, toks);
    assert forall|i: int| 0 <= i < segment_spec(text, vocab).len() implies (
    #[trigger] segment_spec(text, vocab)[i]).len() >= 1 by {
        assert(segment_spec(text, vocab)[i] == us[i].0);
    }
}

/// One pass never produces an empty unit from non-empty units.
proof fn lemma_apply_token_nonempty(us: Seq<(Seq<char>, bool)>, tok: Seq<char>)
    requires
        tok.len() >= 1,
        forall|i: int| 0 <= i < us.len() ==> (#[trigger] us[i]).0.len() >= 1,
    ensures
        forall|i: int|
            0 <= i < apply_token(us, tok).len() ==> (#[trigger] apply_token(us, tok)[i]).0.len()
                >= 1,
    decreases us.len(),
{
    if us.len() == 0 {
    } else {
        lemma_apply_token_nonempty(us.skip(1), tok);
        lemma_split_pieces_nonempty(us[0].0, tok);
        let front = expand_unit(us[0], tok);
        let rest = apply_token(us.skip(1), tok);
        assert forall|i: int| 0 <= i < apply_token(us, tok).len() implies (
        #[trigger] apply_token(us, tok)[i]).0.len() >= 1 by {
            if i < front.len() {
                assert(apply_token(us, tok)[i] == front[i]);
                if !us[0].1 {
                    assert(front[i].0 == split_spec(us[0].0, tok)[i]);
                }
            } else {
                assert(apply_token(us, tok)[i] == rest[i - front.len()]);
            }
        }
    }
}

/// All passes keep every unit non-empty.
proof fn lemma_apply_tokens_nonempty(us: Seq<(Seq<char>, bool)>, toks: Seq<Seq<char>>)
    requires
        forall|i: int| 0 <= i < toks.len() ==> (#[trigger] toks[i]).len() >= 1,
        forall|i: int| 0 <= i < us.len() ==> (#[trigger] us[i]).0.len() >= 1,
    ensures
        forall|i: int|
            0 <= i < apply_tokens(us, toks).len() ==> (#[trigger] apply_tokens(us, toks)[i]).0.len()
                >= 1,
    decreases toks.len(),
{
    if toks.len() == 0 {
    } else {
        lemma_apply_token_nonempty(us, toks[0]);
        assert(forall|i: int|
            0 <= i < toks.skip(1).len() ==> #[trigger] toks.skip(1)[i] == toks[i + 1]);
        lemma_apply_tokens_nonempty(apply_token(us, toks[0]), toks.skip(1));
        let rest = apply_tokens(apply_token(us, toks[0]), toks.skip(1));
        assert forall|i: int| 0 <= i < apply_tokens(us, toks).len() implies (
        #[trigger] apply_tokens(us, toks)[i]).0.len() >= 1 by {
            assert(apply_tokens(us, toks)[i] == rest[i]);
        }
    }
}

/// Tokenizes into one single-character token per code point.
pub fn character_level_tokenize(word: &str) -> (r: Vec<String>)
    ensures
        tokens_view(r@) == word@.map_values(|c: char| seq![c]),
{
    let n = word.unicode_len();
    let mut out: Vec<String> = Vec::new();
    let mut i: usize = 0;
    proof {
        assert(tokens_view(out@) =~= word@.map_values(|c: char| seq![c]).take(0));
    }
    while i < n
        invariant
            i <= n,
            n == word@.len(),
            tokens_view(out@) == word@.map_values(|c: char| seq![c]).take(i as int),
        decreases n - i,
    {
        let ghost before = out@;
        let piece = substring_copy(word, i, i + 1);
        out.push(piece);
        proof {
            crate::split::lemma_tokens_view_push(before, piece);
            let mv = word@.map_values(|c: char| seq![c]);
            assert(piece@ =~= seq![word@[i as int]]);
            assert(mv[i as int] == seq![word@[i as int]]);
            assert(mv.take(i + 1) =~= mv.take(i as int).push(mv[i as int]));
            assert(tokens_view(out@) =~= mv.take(i + 1));
        }
        i = i + 1;
    }
    proof {
        let mv = word@.map_values(|c: char| seq![c]);
        assert(mv.take(n as int) =~= mv);
    }
    out
}

} // verus!
