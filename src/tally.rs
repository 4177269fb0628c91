//! How often each feedback pattern comes up when one guess is scored against
//! every candidate answer: the frequency table that the entropy of a guess
//! is computed from.

use vstd::prelude::*;
use rayon::iter::{IndexedParallelIterator, IntoParallelRefIterator, ParallelIterator};
use crate::tiles::{Pattern, Tile, is_word, is_word_str, pattern_of, word_tiles};

verus! {

broadcast use vstd::seq_lib::group_to_multiset_ensures;

/// The syllables of each word of a list.
pub open spec fn words_of(v: Seq<String>) -> Seq<Seq<char>> {
    v.map_values(|w: String| w@)
}

/// Every word of the list has `WORD_LEN` syllables.
pub open spec fn all_words(ws: Seq<Seq<char>>) -> bool {
    forall|i: int| 0 <= i < ws.len() ==> is_word(#[trigger] ws[i])
}

/// Whether every word of `ws` has exactly `WORD_LEN` syllables.
pub fn all_words_str(ws: &Vec<String>) -> (r: bool)
    ensures
        r == all_words(words_of(ws@)),
{
    let mut i: usize = 0;
    while i < ws.len()
        invariant
            i <= ws@.len(),
            forall|j: int| 0 <= j < i ==> is_word(#[trigger] words_of(ws@)[j]),
        decreases ws@.len() - i,
    {
        if !is_word_str(ws[i].as_str()) {
            assert(!is_word(words_of(ws@)[i as int]));
            return false;
        }
        i += 1;
    }
    true
}

/// The patterns of guess `g` against each candidate, in candidate order.
pub open spec fn patterns_of(g: Seq<char>, cands: Seq<Seq<char>>) -> Seq<Seq<Tile>> {
    Seq::new(cands.len(), |i: int| pattern_of(g, cands[i]))
}

/// Each distinct pattern of `ps` with the number of times it occurs, in the
/// order of first occurrence.
pub open spec fn tally(ps: Seq<Seq<Tile>>) -> Seq<(Seq<Tile>, nat)>
    decreases ps.len(),
{
    if ps.len() == 0 {
        Seq::empty()
    } else {
        let t = tally(ps.drop_last());
        let p = ps.last();
        if exists|j: int| 0 <= j < t.len() && t[j].0 == p {
            let j = choose|j: int| 0 <= j < t.len() && t[j].0 == p;
            t.update(j, (p, t[j].1 + 1))
        } else {
            t.push((p, 1nat))
        }
    }
}

/// A table of patterns and counts as mathematical values.
pub open spec fn tally_view(v: Seq<(Pattern, usize)>) -> Seq<(Seq<Tile>, nat)> {
    v.map_values(|e: (Pattern, usize)| (e.0@, e.1 as nat))
}

/// The sum of the counts of a table.
pub open spec fn total(t: Seq<(Seq<Tile>, nat)>) -> nat
    decreases t.len(),
{
    if t.len() == 0 {
        0
    } else {
        total(t.drop_last()) + t.last().1
    }
}

/// The table lists each pattern of `ps` exactly once, with its number of
/// occurrences in `ps`, and nothing else.
pub proof fn lemma_tally_counts(ps: Seq<Seq<Tile>>)
    ensures
        forall|j: int, k: int|
            0 <= j < k < tally(ps).len() ==> #[trigger] tally(ps)[j].0 != #[trigger] tally(
                ps,
            )[k].0,
        forall|j: int|
            0 <= j < tally(ps).len() ==> #[trigger] tally(ps)[j].1 == ps.to_multiset().count(
                tally(ps)[j].0,
            ),
        forall|p: Seq<Tile>|
            #![trigger ps.contains(p)]
            ps.contains(p) <==> exists|j: int| 0 <= j < tally(ps).len() && tally(ps)[j].0 == p,
    decreases ps.len(),
{
    if ps.len() > 0 {
        let q = ps.drop_last();
        let p = ps.last();
        lemma_tally_counts(q);
        let t = tally(q);
        assert(ps =~= q.push(p));
        assert(ps.to_multiset() =~= q.to_multiset().insert(p));
        let r = tally(ps);
        if exists|j: int| 0 <= j < t.len() && t[j].0 == p {
            let j = choose|j: int| 0 <= j < t.len() && t[j].0 == p;
            assert(r == t.update(j, (p, t[j].1 + 1)));
            assert forall|x: Seq<Tile>| #![trigger ps.contains(x)] ps.contains(x) <==> exists|
                k: int,
            | 0 <= k < r.len() && r[k].0 == x by {
                if ps.contains(x) {
                    let i = choose|i: int| 0 <= i < ps.len() && ps[i] == x;
                    if i < q.len() {
                        assert(q[i] == x);
                        assert(q.contains(x));
                        let k = choose|k: int| 0 <= k < t.len() && t[k].0 == x;
                        assert(r[k].0 == x);
                    } else {
                        assert(r[j].0 == x);
                    }
                }
                if exists|k: int| 0 <= k < r.len() && r[k].0 == x {
                    let k = choose|k: int| 0 <= k < r.len() && r[k].0 == x;
                    if k == j {
                        assert(ps[ps.len() - 1] == x);
                    } else {
                        assert(t[k].0 == x);
                        assert(q.contains(x));
                        let i = choose|i: int| 0 <= i < q.len() && q[i] == x;
                        assert(ps[i] == x);
                    }
                }
            }
        } else {
            assert(r == t.push((p, 1nat)));
            assert(!q.contains(p));
            assert forall|x: Seq<Tile>| #![trigger ps.contains(x)] ps.contains(x) <==> exists|
                k: int,
            | 0 <= k < r.len() && r[k].0 == x by {
                if ps.contains(x) {
                    let i = choose|i: int| 0 <= i < ps.len() && ps[i] == x;
                    if i < q.len() {
                        assert(q[i] == x);
                        assert(q.contains(x));
                        let k = choose|k: int| 0 <= k < t.len() && t[k].0 == x;
                        assert(r[k].0 == x);
                    } else {
                        assert(r[t.len() as int].0 == x);
                    }
                }
                if exists|k: int| 0 <= k < r.len() && r[k].0 == x {
                    let k = choose|k: int| 0 <= k < r.len() && r[k].0 == x;
                    if k == t.len() {
                        assert(ps[ps.len() - 1] == x);
                    } else {
                        assert(t[k].0 == x);
                        assert(q.contains(x));
                        let i = choose|i: int| 0 <= i < q.len() && q[i] == x;
                        assert(ps[i] == x);
                    }
                }
            }
        }
    }
}

/// Whether two patterns are equal.
fn same_pattern(x: &Pattern, y: &Pattern) -> (r: bool)
    ensures
        r == (x@ == y@),
{
    let mut i: usize = 0;
    while i < x.len()
        invariant
            i <= x@.len(),
            x@.len() == y@.len(),
            forall|j: int| 0 <= j < i ==> x@[j] == y@[j],
        decreases x@.len() - i,
    {
        if x[i] != y[i] {
            return false;
        }
        i += 1;
    }
    assert(x@ =~= y@);
    true
}

/// Index of the entry of `t` whose pattern is `p`.
fn find_pattern(t: &Vec<(Pattern, usize)>, p: &Pattern) -> (r: Option<usize>)
    ensures
        match r {
            Some(j) => j < t@.len() && t@[j as int].0@ == p@,
            None => forall|j: int| 0 <= j < t@.len() ==> t@[j].0@ != p@,
        },
{
    let mut j: usize = 0;
    while j < t.len()
        invariant
            j <= t@.len(),
            forall|k: int| 0 <= k < j ==> t@[k].0@ != p@,
        decreases t@.len() - j,
    {
        if same_pattern(&t[j].0, p) {
            return Some(j);
        }
        j += 1;
    }
    None
}

/// Each count of the table is at most the number of patterns counted.
proof fn lemma_tally_bounded(ps: Seq<Seq<Tile>>)
    ensures
        forall|j: int| 0 <= j < tally(ps).len() ==> #[trigger] tally(ps)[j].1 <= ps.len(),
    decreases ps.len(),
{
    if ps.len() > 0 {
        let q = ps.drop_last();
        lemma_tally_bounded(q);
        let t = tally(q);
        let p = ps.last();
        if exists|j: int| 0 <= j < t.len() && t[j].0 == p {
            let j = choose|j: int| 0 <= j < t.len() && t[j].0 == p;
            assert(tally(ps) == t.update(j, (p, t[j].1 + 1)));
            assert(t[j].1 <= q.len());
        }
    }
}

/// The frequency table of the patterns that `guess` produces against each
/// candidate: each distinct pattern once, with how many candidates produce
/// it, in the order in which the patterns first come up.
pub fn pattern_counts(guess: &str, candidates: &Vec<String>) -> (r: Vec<(Pattern, usize)>)
    requires
        is_word(guess@),
        all_words(words_of(candidates@)),
    ensures
        tally_view(r@) == tally(patterns_of(guess@, words_of(candidates@))),
{
    let ghost ps = patterns_of(guess@, words_of(candidates@));
    let mut counts: Vec<(Pattern, usize)> = Vec::new();
    let mut i: usize = 0;
    while i < candidates.len()
        invariant
            i <= candidates@.len(),
            is_word(guess@),
            all_words(words_of(candidates@)),
            ps == patterns_of(guess@, words_of(candidates@)),
            tally_view(counts@) == tally(ps.take(i as int)),
        decreases candidates@.len() - i,
    {
        assert(is_word(words_of(candidates@)[i as int]));
        let p = word_tiles(guess, candidates[i].as_str());
        let ghost before = ps.take(i as int);
        let ghost after = ps.take(i + 1);
        proof {
            assert(after.drop_last() =~= before);
            assert(after.last() == p@);
            lemma_tally_counts(before);
            lemma_tally_bounded(before);
        }
        match find_pattern(&counts, &p) {
            Some(j) => {
                let n = counts[j].1;
                proof {
                    let t = tally(before);
                    assert(t[j as int].0 == p@);
                    assert(t[j as int].1 == n);
                    let k = choose|k: int| 0 <= k < t.len() && t[k].0 == p@;
                    assert(k == j);
                }
                counts[j] = (p, n + 1);
            },
            None => {
                counts.push((p, 1));
            },
        }
        assert(tally_view(counts@) =~= tally(after));
        i += 1;
    }
    assert(ps.take(candidates@.len() as int) =~= ps);
    counts
}

/// Replacing one entry of a table changes its total by the change of that
/// entry's count.
proof fn lemma_total_update(t: Seq<(Seq<Tile>, nat)>, j: int, e: (Seq<Tile>, nat))
    requires
        0 <= j < t.len(),
    ensures
        total(t.update(j, e)) + t[j].1 == total(t) + e.1,
    decreases t.len(),
{
    let u = t.update(j, e);
    if j == t.len() - 1 {
        assert(u.drop_last() =~= t.drop_last());
    } else {
        lemma_total_update(t.drop_last(), j, e);
        assert(u.drop_last() =~= t.drop_last().update(j, e));
    }
}

/// The counts of a table split the counted patterns: every count is at least
/// one and the counts add up to the number of patterns.
proof fn lemma_tally_partition(ps: Seq<Seq<Tile>>)
    ensures
        total(tally(ps)) == ps.len(),
        forall|j: int| 0 <= j < tally(ps).len() ==> #[trigger] tally(ps)[j].1 >= 1,
    decreases ps.len(),
{
    if ps.len() > 0 {
        let q = ps.drop_last();
        lemma_tally_partition(q);
        let t = tally(q);
        let p = ps.last();
        if exists|j: int| 0 <= j < t.len() && t[j].0 == p {
            let j = choose|j: int| 0 <= j < t.len() && t[j].0 == p;
            assert(tally(ps) == t.update(j, (p, t[j].1 + 1)));
            lemma_total_update(t, j, (p, t[j].1 + 1));
        } else {
            assert(tally(ps) == t.push((p, 1nat)));
            assert(tally(ps).drop_last() =~= t);
        }
    }
}

/// Patterns that are all the same make a table of one entry.
proof fn lemma_tally_uniform(ps: Seq<Seq<Tile>>)
    requires
        ps.len() >= 1,
        forall|i: int| 0 <= i < ps.len() ==> #[trigger] ps[i] == ps[0],
    ensures
        tally(ps) == seq![(ps[0], ps.len())],
    decreases ps.len(),
{
    let q = ps.drop_last();
    if q.len() == 0 {
        assert(tally(q) =~= Seq::<(Seq<Tile>, nat)>::empty());
        assert(tally(ps) =~= seq![(ps[0], ps.len())]);
    } else {
        assert forall|i: int| 0 <= i < q.len() implies #[trigger] q[i] == q[0] by {
            assert(ps[i] == ps[0]);
        }
        lemma_tally_uniform(q);
        let t = tally(q);
        assert(t[0].0 == ps.last());
        let j = choose|j: int| 0 <= j < t.len() && t[j].0 == ps.last();
        assert(tally(ps) =~= seq![(ps[0], ps.len())]);
    }
}

/// Patterns that are pairwise different make a table in which each pattern
/// counts once.
proof fn lemma_tally_distinct(ps: Seq<Seq<Tile>>)
    requires
        forall|i: int, k: int| 0 <= i < k < ps.len() ==> ps[i] != ps[k],
    ensures
        tally(ps) == ps.map_values(|p: Seq<Tile>| (p, 1nat)),
    decreases ps.len(),
{
    if ps.len() == 0 {
        assert(tally(ps) =~= ps.map_values(|p: Seq<Tile>| (p, 1nat)));
    } else {
        let q = ps.drop_last();
        lemma_tally_distinct(q);
        let t = tally(q);
        let p = ps.last();
        assert forall|j: int| 0 <= j < t.len() implies t[j].0 != p by {
            assert(q[j] == ps[j]);
        }
        assert(tally(ps) =~= ps.map_values(|p: Seq<Tile>| (p, 1nat)));
    }
}

/// When every candidate gives the guess the same pattern (in particular when
/// there is a single candidate), the table holds that one pattern, counted
/// for every candidate: the guess carries no information.
pub proof fn lemma_uniform_feedback(g: Seq<char>, cands: Seq<Seq<char>>)
    requires
        is_word(g),
        all_words(cands),
        cands.len() >= 1,
        forall|i: int| 0 <= i < cands.len() ==> #[trigger] pattern_of(g, cands[i]) == pattern_of(g, cands[0]),
    ensures
        tally(patterns_of(g, cands)) == seq![(pattern_of(g, cands[0]), cands.len())],
{
    let ps = patterns_of(g, cands);
    assert forall|i: int| 0 <= i < ps.len() implies #[trigger] ps[i] == ps[0] by {
        assert(pattern_of(g, cands[i]) == pattern_of(g, cands[0]));
    }
    lemma_tally_uniform(ps);
}

/// Conversely, a table of one entry means that every candidate gives the
/// guess that entry's pattern.
pub proof fn lemma_single_entry_uniform(g: Seq<char>, cands: Seq<Seq<char>>)
    requires
        tally(patterns_of(g, cands)).len() == 1,
    ensures
        forall|i: int|
            0 <= i < cands.len() ==> #[trigger] pattern_of(g, cands[i]) == tally(
                patterns_of(g, cands),
            )[0].0,
{
    let ps = patterns_of(g, cands);
    lemma_tally_counts(ps);
    assert forall|i: int| 0 <= i < cands.len() implies #[trigger] pattern_of(g, cands[i])
        == tally(ps)[0].0 by {
        assert(ps[i] == pattern_of(g, cands[i]));
        assert(ps.contains(ps[i]));
    }
}

/// A table whose counts are all at least one and add up to its number of
/// entries has every count equal to one.
proof fn lemma_total_len_all_ones(t: Seq<(Seq<Tile>, nat)>)
    requires
        forall|j: int| 0 <= j < t.len() ==> #[trigger] t[j].1 >= 1,
        total(t) == t.len(),
    ensures
        forall|j: int| 0 <= j < t.len() ==> #[trigger] t[j].1 == 1,
    decreases t.len(),
{
    if t.len() > 0 {
        let u = t.drop_last();
        assert forall|j: int| 0 <= j < u.len() implies #[trigger] u[j].1 >= 1 by {
            assert(t[j].1 >= 1);
        }
        lemma_total_at_least_len(u);
        lemma_total_len_all_ones(u);
        assert forall|j: int| 0 <= j < t.len() implies #[trigger] t[j].1 == 1 by {
            if j < u.len() {
                assert(u[j].1 == 1);
            }
        }
    }
}

/// Conversely, a table with one entry per candidate means that the
/// candidates give the guess pairwise different patterns.
pub proof fn lemma_full_table_distinct(g: Seq<char>, cands: Seq<Seq<char>>)
    requires
        tally(patterns_of(g, cands)).len() == cands.len(),
    ensures
        forall|i: int, k: int|
            0 <= i < k < cands.len() ==> #[trigger] pattern_of(g, cands[i]) != #[trigger] pattern_of(
                g,
                cands[k],
            ),
{
    let ps = patterns_of(g, cands);
    let t = tally(ps);
    lemma_tally_counts(ps);
    lemma_tally_partition(ps);
    lemma_total_len_all_ones(t);
    assert forall|x: Seq<Tile>| ps.to_multiset().contains(x) implies ps.to_multiset().count(x)
        == 1 by {
        assert(ps.contains(x));
        let j = choose|j: int| 0 <= j < t.len() && t[j].0 == x;
        assert(t[j].1 == 1);
    }
    ps.lemma_multiset_has_no_duplicates_conv();
    assert forall|i: int, k: int| 0 <= i < k < cands.len() implies #[trigger] pattern_of(
        g,
        cands[i],
    ) != #[trigger] pattern_of(g, cands[k]) by {
        assert(ps[i] != ps[k]);
    }
}

/// The table of a guess splits the candidates: each count is at least one
/// and the counts add up to the number of candidates, so the pattern
/// frequencies form a distribution over at most that many outcomes.
pub proof fn lemma_feedback_partition(g: Seq<char>, cands: Seq<Seq<char>>)
    ensures
        total(tally(patterns_of(g, cands))) == cands.len(),
        tally(patterns_of(g, cands)).len() <= cands.len(),
        forall|j: int|
            0 <= j < tally(patterns_of(g, cands)).len() ==> #[trigger] tally(
                patterns_of(g, cands),
            )[j].1 >= 1,
{
    let ps = patterns_of(g, cands);
    lemma_tally_partition(ps);
    lemma_total_at_least_len(tally(ps));
}

/// A table whose counts are all at least one has a total of at least its
/// number of entries.
proof fn lemma_total_at_least_len(t: Seq<(Seq<Tile>, nat)>)
    requires
        forall|j: int| 0 <= j < t.len() ==> #[trigger] t[j].1 >= 1,
    ensures
        total(t) >= t.len(),
    decreases t.len(),
{
    if t.len() > 0 {
        let u = t.drop_last();
        assert forall|j: int| 0 <= j < u.len() implies #[trigger] u[j].1 >= 1 by {
            assert(t[j].1 >= 1);
        }
        lemma_total_at_least_len(u);
    }
}

/// When the candidates give the guess pairwise different patterns, the
/// table counts each pattern once: the guess tells every candidate apart.
pub proof fn lemma_distinct_feedback(g: Seq<char>, cands: Seq<Seq<char>>)
    requires
        forall|i: int, k: int|
            0 <= i < k < cands.len() ==> #[trigger] pattern_of(g, cands[i]) != #[trigger] pattern_of(
                g,
                cands[k],
            ),
    ensures
        tally(patterns_of(g, cands)) == patterns_of(g, cands).map_values(
            |p: Seq<Tile>| (p, 1nat),
        ),
        tally(patterns_of(g, cands)).len() == cands.len(),
{
    let ps = patterns_of(g, cands);
    assert forall|i: int, k: int| 0 <= i < k < ps.len() implies ps[i] != ps[k] by {
        assert(pattern_of(g, cands[i]) != pattern_of(g, cands[k]));
    }
    lemma_tally_distinct(ps);
}

/// Relies on rayon's `par_iter`, `map` and `collect_into_vec` on a slice:
/// the closure runs once for each guess, and the vector receives the results
/// in the order of the guesses.
#[verifier::external_body]
fn par_pattern_counts(guesses: &Vec<String>, candidates: &Vec<String>) -> (r: Vec<
    Vec<(Pattern, usize)>,
>)
    requires
        all_words(words_of(guesses@)),
        all_words(words_of(candidates@)),
    ensures
        r@.len() == guesses@.len(),
        forall|i: int|
            0 <= i < r@.len() ==> tally_view(#[trigger] r@[i]@) == tally(
                patterns_of(guesses@[i]@, words_of(candidates@)),
            ),
{
    let mut r = Vec::new();
    guesses.par_iter().map(|g| pattern_counts(g, candidates)).collect_into_vec(&mut r);
    r
}

/// The frequency table of each guess against the candidates, in the order of
/// the guesses; the guesses are scored in parallel.
pub fn all_pattern_counts(guesses: &Vec<String>, candidates: &Vec<String>) -> (r: Vec<
    Vec<(Pattern, usize)>,
>)
    requires
        all_words(words_of(guesses@)),
        all_words(words_of(candidates@)),
    ensures
        r@.len() == guesses@.len(),
        forall|i: int|
            0 <= i < r@.len() ==> tally_view(#[trigger] r@[i]@) == tally(
                patterns_of(guesses@[i]@, words_of(candidates@)),
            ),
{
    par_pattern_counts(guesses, candidates)
}

} // verus!
